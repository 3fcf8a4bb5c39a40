use hive_tracker::address::IpAddress;
use hive_tracker::metrics::AppMetrics;
use hive_tracker::rate_limit::RateLimiter;
use hive_tracker::state::{AnnounceEvent, Peer, TrackerState};
use hive_tracker::udp::{
    append_compact_peers, error_response, event_name, push_u32, push_u64, read_i32, read_u16,
    read_u32, read_u64, UdpTracker, PROTOCOL_ID,
};
use std::collections::hash_map::DefaultHasher;
use std::hash::{Hash, Hasher};

const NOW: u64 = 1_700_000_000;
const ADDRESS: IpAddress = IpAddress::V4([192, 0, 2, 1]);

fn tracker() -> UdpTracker {
    UdpTracker {
        announce_interval: 1800,
        connection_secret: 42,
        enable_scrape: true,
    }
}

fn metrics() -> AppMetrics {
    AppMetrics::new().expect("metrics should initialize")
}

fn header(connection_id: u64, action: u32) -> Vec<u8> {
    let mut packet = Vec::new();
    push_u64(&mut packet, connection_id);
    push_u32(&mut packet, action);
    push_u32(&mut packet, 77);
    packet
}

fn announce_packet(connection_id: u64, peer_id: u8, event: u32) -> Vec<u8> {
    let mut packet = header(connection_id, 1);
    packet.extend_from_slice(&[5; 20]);
    packet.extend_from_slice(&[peer_id; 20]);
    push_u64(&mut packet, 0);
    push_u64(&mut packet, 100);
    push_u64(&mut packet, 0);
    push_u32(&mut packet, event);
    push_u32(&mut packet, 0);
    push_u32(&mut packet, 9);
    push_u32(&mut packet, u32::MAX);
    packet.extend_from_slice(&[0x1a, 0xe1]);
    packet
}

#[test]
fn given_udp_integer_when_read_then_network_byte_order_is_used() {
    assert_eq!(read_u32(&[0, 0, 0, 42], 0), Some(42));
}

#[test]
fn numbers_are_read_within_the_packet() {
    assert_eq!(read_u16(&[1, 2], 0), Some(258));
    assert_eq!(read_u16(&[1, 2], 1), None);
    assert_eq!(read_i32(&[255, 255, 255, 255], 0), Some(-1));
    assert_eq!(read_u64(&[0, 0, 0, 0, 0, 0, 1, 0], 0), Some(256));
    assert_eq!(read_u32(&[0; 4], usize::MAX), None);
    let mut packet = vec![9];
    push_u64(&mut packet, u64::MAX - 1);
    push_u32(&mut packet, 0x0102_0304);
    assert_eq!(read_u64(&packet, 1), Some(u64::MAX - 1));
    assert_eq!(read_u32(&packet, 9), Some(0x0102_0304));
}

#[test]
fn a_connection_is_opened_and_used() {
    let tracker = tracker();
    let mut state = TrackerState::default();
    let mut metrics = metrics();

    let connect = tracker.handle_packet_at(
        &header(PROTOCOL_ID, 0),
        ADDRESS,
        NOW,
        &mut state,
        &mut metrics,
    );
    assert_eq!(connect.len(), 16);
    assert_eq!(read_u32(&connect, 0), Some(0));
    assert_eq!(read_u32(&connect, 4), Some(77));
    let connection_id = read_u64(&connect, 8).expect("identifier should be there");
    assert_eq!(connection_id, tracker.connection_id(&ADDRESS, NOW / 60));

    let first = tracker.handle_packet_at(
        &announce_packet(connection_id, 1, 2),
        ADDRESS,
        NOW,
        &mut state,
        &mut metrics,
    );
    let mut expected = Vec::new();
    for number in [1, 77, 1800, 1, 0] {
        push_u32(&mut expected, number);
    }
    assert_eq!(first, expected);

    let second = tracker.handle_packet_at(
        &announce_packet(connection_id, 2, 2),
        ADDRESS,
        NOW,
        &mut state,
        &mut metrics,
    );
    let mut expected = Vec::new();
    for number in [1, 77, 1800, 2, 0] {
        push_u32(&mut expected, number);
    }
    expected.extend_from_slice(&[192, 0, 2, 1, 0x1a, 0xe1]);
    assert_eq!(second, expected);

    let mut packet = header(connection_id, 2);
    packet.extend_from_slice(&[5; 20]);
    packet.extend_from_slice(&[6; 20]);
    let scrape = tracker.handle_packet_at(&packet, ADDRESS, NOW, &mut state, &mut metrics);
    let mut expected = Vec::new();
    for number in [2, 77, 0, 0, 2, 0, 0, 0] {
        push_u32(&mut expected, number);
    }
    assert_eq!(scrape, expected);
}

#[test]
fn connections_expire_and_belong_to_one_address() {
    let tracker = tracker();
    let mut packet = header(tracker.connection_id(&ADDRESS, NOW / 60), 2);
    packet.extend_from_slice(&[5; 20]);
    assert!(tracker.valid_connection(&packet, &ADDRESS, NOW));
    assert!(tracker.valid_connection(&packet, &ADDRESS, NOW + 60));
    assert!(!tracker.valid_connection(&packet, &ADDRESS, NOW + 120));
    assert!(!tracker.valid_connection(&packet, &IpAddress::V4([192, 0, 2, 2]), NOW));
    let other = UdpTracker {
        connection_secret: 43,
        ..tracker
    };
    assert!(!other.valid_connection(&packet, &ADDRESS, NOW));
}

#[test]
fn refused_packets_change_nothing() {
    let tracker = tracker();
    let mut state = TrackerState::default();
    let mut metrics = metrics();
    let reply = tracker.handle_packet_at(
        &announce_packet(1, 1, 2),
        ADDRESS,
        NOW,
        &mut state,
        &mut metrics,
    );
    assert_eq!(read_u32(&reply, 0), Some(3));
    assert_eq!(read_u32(&reply, 4), Some(77));
    assert_eq!(reply, error_response(77, "invalid announce request"));
    assert_eq!(state.peer_count(), 0);

    let connection_id = tracker.connection_id(&ADDRESS, NOW / 60);
    let mut packet = announce_packet(connection_id, 1, 2);
    packet[96] = 0;
    packet[97] = 0;
    let reply = tracker.handle_packet_at(&packet, ADDRESS, NOW, &mut state, &mut metrics);
    assert_eq!(reply, error_response(77, "invalid peer port"));

    let reply = tracker.handle_packet_at(
        &header(connection_id, 2),
        ADDRESS,
        NOW,
        &mut state,
        &mut metrics,
    );
    assert_eq!(reply, error_response(77, "invalid scrape request"));

    let reply = tracker.handle_packet_at(&header(7, 0), ADDRESS, NOW, &mut state, &mut metrics);
    assert_eq!(reply, error_response(77, "invalid protocol id"));
    assert_eq!(state.peer_count(), 0);

    let unknown =
        tracker.handle_packet_at(&header(1, 9), ADDRESS, NOW, &mut state, &mut metrics);
    assert_eq!(unknown, error_response(77, "unsupported action"));
}

#[test]
fn scrapes_can_be_switched_off() {
    let tracker = UdpTracker {
        enable_scrape: false,
        ..tracker()
    };
    let mut state = TrackerState::default();
    let mut metrics = metrics();
    let mut packet = header(tracker.connection_id(&ADDRESS, NOW / 60), 2);
    packet.extend_from_slice(&[5; 20]);
    let reply = tracker.handle_packet_at(&packet, ADDRESS, NOW, &mut state, &mut metrics);
    assert_eq!(reply, error_response(77, "unsupported action"));
}

#[test]
fn short_packets_and_busy_sources_are_dropped() {
    let tracker = tracker();
    let mut state = TrackerState::default();
    let mut metrics = metrics();
    let mut limiter = RateLimiter::per_minute(1);
    assert_eq!(
        tracker.handle_packet(&[0; 15], ADDRESS, &mut state, &mut metrics, &mut limiter),
        None
    );
    let packet = header(PROTOCOL_ID, 0);
    assert!(tracker
        .handle_packet(&packet, ADDRESS, &mut state, &mut metrics, &mut limiter)
        .is_some());
    assert_eq!(
        tracker.handle_packet(&packet, ADDRESS, &mut state, &mut metrics, &mut limiter),
        None
    );
}

#[test]
fn compact_peers_have_the_family_of_the_asking_one() {
    let peer = |ip| Peer {
        peer_id: [1; 20],
        ip,
        port: 6881,
        left: 0,
        last_seen: 0,
    };
    let peers = vec![peer(ADDRESS), peer(IpAddress::V6([3; 16]))];
    let mut output = Vec::new();
    append_compact_peers(&mut output, &peers, &ADDRESS);
    assert_eq!(output, vec![192, 0, 2, 1, 0x1a, 0xe1]);
    let mut output = Vec::new();
    append_compact_peers(&mut output, &peers, &IpAddress::V6([0; 16]));
    assert_eq!(output.len(), 18);
}

#[test]
fn events_have_names() {
    assert_eq!(event_name(AnnounceEvent::Started), "started");
    assert_eq!(event_name(AnnounceEvent::Completed), "completed");
    assert_eq!(event_name(AnnounceEvent::Stopped), "stopped");
    assert_eq!(event_name(AnnounceEvent::Update), "update");
}

#[test]
fn a_connection_identifier_is_the_hash_of_secret_address_and_minute() {
    let mut hasher = DefaultHasher::new();
    42_u64.hash(&mut hasher);
    0_isize.hash(&mut hasher);
    u32::from_ne_bytes([192, 0, 2, 1]).hash(&mut hasher);
    (NOW / 60).hash(&mut hasher);
    assert_eq!(tracker().connection_id(&ADDRESS, NOW / 60), hasher.finish());

    let octets = [0x20, 1, 0xd, 0xb8, 0, 0, 0, 0, 0, 0, 0, 0, 0, 0, 0, 9];
    let mut hasher = DefaultHasher::new();
    42_u64.hash(&mut hasher);
    1_isize.hash(&mut hasher);
    u128::from_ne_bytes(octets).hash(&mut hasher);
    (NOW / 60).hash(&mut hasher);
    assert_eq!(
        tracker().connection_id(&IpAddress::V6(octets), NOW / 60),
        hasher.finish()
    );
}
