use hive_tracker::address::parse_ip;
use hive_tracker::client::detect;
use hive_tracker::metrics::TrafficSnapshot;
use hive_tracker::persistence::{
    client_statistic, finish_save, history_cutoff, history_modifier, identifier, load, metric_point,
    missing_columns, plan_write, plan_writes, positive_i64, sqlite_integer, torrent_statistic,
    traffic_point, ClientStatistic, DashboardHistory, HistoryCache, PeerRow, PersistenceError,
    SwarmRow, SwarmWrite, TorrentStatistic, TorrentWrite, TrafficCheckpoint,
};
use hive_tracker::state::{
    unix_timestamp, AnnounceEvent, Peer, TorrentChange, TrackerState, TrackerSummary,
};

fn peer(peer_id: u8, left: u64) -> Peer {
    Peer {
        peer_id: [peer_id; 20],
        ip: parse_ip(b"127.0.0.1").expect("test address should parse"),
        port: 6881,
        left,
        last_seen: unix_timestamp(),
    }
}

/// What a database holds after writes: they replace what was saved of their
/// torrents.
fn store(swarms: &mut Vec<SwarmRow>, peers: &mut Vec<PeerRow>, writes: Vec<TorrentWrite>) {
    for write in writes {
        let info_hash = write.info_hash.to_vec();
        swarms.retain(|row| row.info_hash != info_hash);
        peers.retain(|row| row.info_hash != info_hash);
        if let Some(swarm) = write.swarm {
            swarms.push(SwarmRow {
                info_hash: info_hash.clone(),
                downloaded: swarm.downloaded,
            });
        }
        for peer in write.peers {
            peers.push(PeerRow {
                info_hash: info_hash.clone(),
                peer_id: peer.peer_id.to_vec(),
                ip: peer.ip,
                port: peer.port,
                bytes_left: peer.bytes_left,
                last_seen: peer.last_seen,
            });
        }
    }
}

#[test]
fn only_the_current_state_is_restored() {
    let mut state = TrackerState::default();
    let first_hash = [1; 20];
    let second_hash = [2; 20];
    let mut swarms = Vec::new();
    let mut peers = Vec::new();
    state.announce(first_hash, peer(1, 10), AnnounceEvent::Started);
    state.announce(second_hash, peer(2, 10), AnnounceEvent::Started);
    let changes = state.drain_changes();
    store(&mut swarms, &mut peers, plan_writes(&changes));
    state.acknowledge_changes(&changes);

    state.announce(first_hash, peer(1, 10), AnnounceEvent::Stopped);
    let changes = state.drain_changes();
    assert_eq!(changes.len(), 1);
    store(&mut swarms, &mut peers, plan_writes(&changes));

    let mut restored = TrackerState::default();
    load(&mut restored, &swarms, &peers).expect("saved rows should load");
    assert_eq!(restored.stats(&first_hash), Default::default());
    assert_eq!(restored.peer_count(), 1);
    assert_eq!(restored.torrent_count(), 1);
    assert_eq!(
        restored.peers(&second_hash, &[0; 20], 10),
        state.peers(&second_hash, &[0; 20], 10)
    );
    assert!(restored.drain_changes().is_empty());
}

#[test]
fn all_counts_of_a_torrent_are_saved() {
    let mut state = TrackerState::default();
    let info_hash = [3; 20];
    state.announce(info_hash, peer(1, 100), AnnounceEvent::Started);
    state.announce(info_hash, peer(2, 0), AnnounceEvent::Started);
    state.announce(info_hash, peer(3, 50), AnnounceEvent::Started);
    state.announce(info_hash, peer(1, 0), AnnounceEvent::Completed);

    let changes = state.drain_changes();
    let write = plan_write(&changes[0]);
    let swarm = write.swarm.expect("torrent should be saved");
    assert_eq!(
        swarm,
        SwarmWrite {
            peers: 3,
            seeders: 2,
            leechers: 1,
            downloaded: 1,
        }
    );
    assert_eq!(write.peers.len(), 3);
    assert_eq!(write.peers[0].ip, "127.0.0.1");
    assert_eq!(
        torrent_statistic(
            &info_hash.to_vec(),
            swarm.peers,
            swarm.seeders,
            swarm.leechers,
            swarm.downloaded
        )
        .expect("row should be read"),
        TorrentStatistic {
            info_hash,
            peers: 3,
            seeders: 2,
            leechers: 1,
            downloaded: 1,
        }
    );
}

#[test]
fn traffic_is_saved_as_what_was_added() {
    let summary = TrackerSummary {
        peers: 5,
        seeders: 2,
        leechers: 3,
        torrents: 4,
        completed: 7,
    };
    let mut traffic = TrafficSnapshot::default();
    traffic.total_ingress_bytes = 100;
    traffic.total_egress_bytes = 200;
    let mut checkpoint = TrafficCheckpoint::default();
    let first = checkpoint.plan_snapshot(summary, 10, traffic, 125);
    assert_eq!(first.recorded_at, 120);
    assert_eq!(first.peers, 5);
    assert_eq!(first.completed, 7);
    assert_eq!(first.uptime_seconds, 10);
    assert_eq!((first.ingress_delta, first.egress_delta), (100, 200));
    checkpoint.finish_snapshot(traffic, true);

    traffic.total_ingress_bytes = 150;
    traffic.total_egress_bytes = 260;
    let second = checkpoint.plan_snapshot(summary, 20, traffic, 185);
    assert_eq!((second.ingress_delta, second.egress_delta), (50, 60));
    assert_eq!(first.ingress_delta + second.ingress_delta, 150);
}

#[test]
fn traffic_of_a_failed_snapshot_is_saved_by_the_next() {
    let summary = TrackerSummary {
        peers: 1,
        seeders: 0,
        leechers: 1,
        torrents: 1,
        completed: 0,
    };
    let mut checkpoint = TrafficCheckpoint::default();
    let mut saved = (0, 0);
    for (ingress, egress, written) in [
        (100, 10, true),
        (150, 30, false),
        (170, 60, false),
        (200, 80, true),
        (200, 80, true),
        (90, 85, true),
    ] {
        let mut traffic = TrafficSnapshot::default();
        traffic.total_ingress_bytes = ingress;
        traffic.total_egress_bytes = egress;
        let write = checkpoint.plan_snapshot(summary, 1, traffic, 179);
        assert_eq!(write.recorded_at, 120);
        if written {
            saved.0 += write.ingress_delta;
            saved.1 += write.egress_delta;
        }
        checkpoint.finish_snapshot(traffic, written);
    }
    assert_eq!(saved, (200, 85));
    assert_eq!((checkpoint.ingress_bytes, checkpoint.egress_bytes), (90, 85));
}

#[test]
fn changes_of_a_failed_save_are_listed_again() {
    let mut state = TrackerState::default();
    state.announce([1; 20], peer(1, 10), AnnounceEvent::Started);
    state.announce([2; 20], peer(2, 10), AnnounceEvent::Started);
    let hashes = |changes: &[TorrentChange]| {
        let mut hashes: Vec<_> = changes.iter().map(|change| change.info_hash).collect();
        hashes.sort();
        hashes
    };

    let changes = state.drain_changes();
    finish_save(&mut state, &changes, false);
    let again = state.drain_changes();
    assert_eq!(hashes(&again), vec![[1; 20], [2; 20]]);
    assert_eq!(hashes(&again), hashes(&changes));

    state.announce([2; 20], peer(3, 0), AnnounceEvent::Started);
    finish_save(&mut state, &again, true);
    let left = state.drain_changes();
    assert_eq!(hashes(&left), vec![[2; 20]]);
    assert_eq!(left[0].peers.len(), 2);
}

#[test]
fn torrents_that_are_not_written_keep_their_rows() {
    let mut state = TrackerState::default();
    let mut swarms = Vec::new();
    let mut peers = Vec::new();
    state.announce([1; 20], peer(1, 10), AnnounceEvent::Started);
    state.announce([2; 20], peer(2, 10), AnnounceEvent::Started);
    let changes = state.drain_changes();
    store(&mut swarms, &mut peers, plan_writes(&changes));
    finish_save(&mut state, &changes, true);

    state.announce([2; 20], peer(2, 10), AnnounceEvent::Stopped);
    let changes = state.drain_changes();
    store(&mut swarms, &mut peers, plan_writes(&changes));
    assert_eq!(swarms.len(), 1);
    assert_eq!(swarms[0].info_hash, vec![1; 20]);
    assert_eq!(peers.len(), 1);
    assert_eq!(peers[0].peer_id, vec![1; 20]);
}

#[test]
fn lacking_columns_are_found() {
    let names = |names: &[&str]| names.iter().map(|name| (*name).to_owned()).collect();
    assert_eq!(
        missing_columns(&names(&["info_hash", "downloaded"])),
        vec!["peers", "seeders", "leechers"]
    );
    assert_eq!(
        missing_columns(&names(&["info_hash", "seeders"])),
        vec!["peers", "leechers"]
    );
    assert!(missing_columns(&names(&["peers", "seeders", "leechers"])).is_empty());
}

#[test]
fn clients_are_counted_under_their_names() {
    assert_eq!(
        client_statistic(detect([0xff; 20]).to_owned(), 1),
        ClientStatistic {
            client_name: "Unknown".to_owned(),
            peer_count: 1,
        }
    );
    assert_eq!(client_statistic("x".to_owned(), -3).peer_count, 0);
}

#[test]
fn numbers_keep_to_the_database() {
    assert_eq!(positive_i64(-1), 0);
    assert_eq!(positive_i64(5), 5);
    assert_eq!(sqlite_integer(u64::MAX), i64::MAX);
    assert_eq!(sqlite_integer(5), 5);
}

#[test]
fn rows_that_cannot_be_restored_are_reported() {
    let error = identifier(&vec![1; 19], "peer_id").expect_err("a byte is missing");
    assert_eq!(
        error.message(),
        "invalid persisted peer_id length: expected 20 bytes, got 19"
    );
    let row = PeerRow {
        info_hash: vec![1; 20],
        peer_id: vec![2; 20],
        ip: "localhost".to_owned(),
        port: 1,
        bytes_left: 0,
        last_seen: 0,
    };
    let mut state = TrackerState::default();
    let swarms = vec![SwarmRow {
        info_hash: vec![1; 20],
        downloaded: -4,
    }];
    let error = load(&mut state, &swarms, &vec![row]).expect_err("no address");
    assert!(matches!(error, PersistenceError::InvalidAddress));
    assert_eq!(
        error.message(),
        "invalid persisted peer address: invalid IP address syntax"
    );
    assert_eq!(state.torrent_count(), 1);
    assert_eq!(state.peer_count(), 0);
    let swarms = vec![SwarmRow {
        info_hash: vec![],
        downloaded: 1,
    }];
    assert!(load(&mut state, &swarms, &Vec::new()).is_err());
}

#[test]
fn histories_have_their_totals_and_are_kept() {
    let traffic = vec![
        traffic_point("2024-01-01".to_owned(), 100, 200),
        traffic_point("2024-01-02".to_owned(), 50, -60),
    ];
    let metrics = vec![metric_point(60, 5, 2, 3, 4, 7)];
    let history = DashboardHistory::new(metrics, traffic);
    assert_eq!(history.total_ingress_bytes, 150);
    assert_eq!(history.total_egress_bytes, 200);
    assert_eq!(history.metrics[0].timestamp, 60);

    let mut cache = HistoryCache::default();
    assert!(cache.get(1, 60).is_none());
    cache.insert(1, 60, history.clone());
    assert_eq!(cache.get(1, 60), Some(&history));
    assert!(cache.get(7, 60).is_none());
    cache.insert(1, 60, DashboardHistory::new(Vec::new(), Vec::new()));
    assert_eq!(cache.get(1, 60).map(|kept| kept.metrics.len()), Some(0));
    cache.clear();
    assert!(cache.get(1, 60).is_none());
}

#[test]
fn histories_go_back_so_many_days() {
    assert_eq!(history_cutoff(1_000_000, 7), 395_200);
    assert_eq!(history_cutoff(10, 1), 0);
    assert_eq!(history_modifier(7), "-6 days");
    assert_eq!(history_modifier(0), "-0 days");
}
