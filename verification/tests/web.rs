use hive_tracker::address::{parse_ip, IpAddress};
use hive_tracker::bencode::decode;
use hive_tracker::metrics::AppMetrics;
use hive_tracker::rate_limit::RateLimiter;
use hive_tracker::scrape_json::scrape_json;
use hive_tracker::state::{AnnounceEvent, Peer, SwarmStats, TrackerState};
use hive_tracker::web::{
    announce_at, announce_payload, authenticate, exchange_bytes, first, health_report,
    metadata_bytes, optional_number, parse_compact, parse_event, parse_format, parse_period,
    parse_query, percent_decode, requested_period, required_identifier, required_number, scrape,
    scrape_payload,
    tracker_gate, traffic_label, update_population, ApiError, Period, ScrapeCache, ScrapeFormat,
    BITTORRENT_CONTENT_TYPE, REQUEST_TOO_LARGE,
};

const NOW: u64 = 1_700_000_000;

fn ip(text: &str) -> IpAddress {
    parse_ip(text.as_bytes()).expect("test address must parse")
}

fn metrics() -> AppMetrics {
    AppMetrics::new().expect("metrics should initialize")
}

fn exposed(metrics: &mut AppMetrics) -> String {
    String::from_utf8(metrics.encode_at(NOW).expect("metrics should encode"))
        .expect("metrics are text")
}

#[test]
fn given_binary_query_when_parsed_then_identifiers_are_preserved() {
    let params =
        parse_query("info_hash=%00%01%02%03%04%05%06%07%08%09%0A%0B%0C%0D%0E%0F%10%11%12%13")
            .expect("valid query should parse");
    assert_eq!(
        required_identifier(&params, "info_hash").expect("identifier should parse"),
        [0, 1, 2, 3, 4, 5, 6, 7, 8, 9, 10, 11, 12, 13, 14, 15, 16, 17, 18, 19]
    );
}

#[test]
fn given_missing_transfer_counters_when_announce_is_parsed_then_request_is_rejected() {
    let params = parse_query(
        "info_hash=aaaaaaaaaaaaaaaaaaaa&peer_id=bbbbbbbbbbbbbbbbbbbb&port=6881&left=0",
    )
    .expect("query should parse");

    assert_eq!(
        required_number::<u64>(&params, "uploaded")
            .expect_err("uploaded should be required")
            .message,
        "missing uploaded"
    );
    assert_eq!(
        required_number::<u64>(&params, "downloaded")
            .expect_err("downloaded should be required")
            .message,
        "missing downloaded"
    );
}

#[test]
fn given_compact_disabled_when_announce_payload_is_built_then_bep3_peer_list_is_returned() {
    let peer = Peer {
        peer_id: [b'p'; 20],
        ip: ip("127.0.0.1"),
        port: 6881,
        left: 0,
        last_seen: 0,
    };

    let payload = announce_payload(
        SwarmStats {
            complete: 1,
            incomplete: 0,
            downloaded: 1,
        },
        &vec![peer],
        ip("127.0.0.2"),
        1800,
        false,
    );

    assert_eq!(
        payload,
        b"d8:completei1e10:incompletei0e8:intervali1800e5:peersld2:ip9:127.0.0.1\
7:peer id20:pppppppppppppppppppp4:porti6881eeee"
    );
}

#[test]
fn given_mixed_address_families_when_compact_payload_is_built_then_peers_are_separated() {
    let peers = vec![
        Peer {
            peer_id: [1; 20],
            ip: ip("127.0.0.1"),
            port: 6881,
            left: 1,
            last_seen: 0,
        },
        Peer {
            peer_id: [2; 20],
            ip: ip("::1"),
            port: 6882,
            left: 1,
            last_seen: 0,
        },
    ];

    let payload = announce_payload(
        SwarmStats::default(),
        &peers,
        ip("127.0.0.2"),
        1800,
        true,
    );

    assert!(payload.windows(7).any(|window| window == b"5:peers"));
    assert!(payload.windows(8).any(|window| window == b"6:peers6"));
    assert!(payload.ends_with(&[0x1a, 0xe2, b'e']));
}

#[test]
fn given_completed_torrent_when_scraped_then_bep48_statistics_are_returned() {
    let mut state = TrackerState::default();
    let info_hash = [b'a'; 20];
    let mut peer = Peer {
        peer_id: [b'p'; 20],
        ip: ip("127.0.0.1"),
        port: 6881,
        left: 10,
        last_seen: 0,
    };
    state.announce(info_hash, peer, AnnounceEvent::Started);
    peer.left = 0;
    state.announce(info_hash, peer, AnnounceEvent::Completed);

    let payload = scrape_payload(&state, &vec![info_hash]);

    assert_eq!(
        payload,
        b"d5:filesd20:aaaaaaaaaaaaaaaaaaaad8:completei1e10:downloadedi1e\
10:incompletei0eeee"
    );
}

#[test]
fn bencoded_replies_have_their_content_type() {
    assert_eq!(BITTORRENT_CONTENT_TYPE, "application/x-bittorrent");
}

#[test]
fn percent_escapes_are_decoded() {
    assert_eq!(percent_decode(b"a+b%2Fc%ff").unwrap(), b"a b/c\xff");
    assert_eq!(
        percent_decode(b"%2").expect_err("escape is cut").message,
        "incomplete percent escape"
    );
    assert_eq!(
        percent_decode(b"%zz").expect_err("no hexadecimal").message,
        "invalid percent escape"
    );
}

#[test]
fn queries_keep_the_first_of_repeated_values() {
    let params = parse_query("a=1&&b&a=2").expect("query should parse");
    assert_eq!(first(&params, "a"), Some(b"1".as_slice()));
    assert_eq!(first(&params, "b"), Some(b"".as_slice()));
    assert_eq!(first(&params, "c"), None);
    assert_eq!(
        parse_query("%ff=1").expect_err("key is no text").message,
        "query key is not valid UTF-8"
    );
}

#[test]
fn numbers_must_fit() {
    let params = parse_query("port=65536&left=12&numwant=x").expect("query should parse");
    assert_eq!(
        required_number::<u16>(&params, "port")
            .expect_err("port is too large")
            .message,
        "invalid port"
    );
    assert_eq!(required_number::<u64>(&params, "left").unwrap(), 12);
    assert_eq!(
        optional_number::<usize>(&params, "numwant")
            .expect_err("no number")
            .message,
        "invalid numwant"
    );
    assert_eq!(optional_number::<usize>(&params, "other").unwrap(), None);
    assert_eq!(
        required_identifier(&params, "left")
            .expect_err("too short")
            .message,
        "left must be 20 bytes, got 2"
    );
    assert_eq!(
        required_identifier(&params, "info_hash")
            .expect_err("not there")
            .message,
        "missing info_hash"
    );
}

#[test]
fn words_of_the_query_are_read() {
    assert_eq!(parse_event(None).unwrap(), AnnounceEvent::Update);
    assert_eq!(parse_event(Some(b"")).unwrap(), AnnounceEvent::Update);
    assert_eq!(
        parse_event(Some(b"completed")).unwrap(),
        AnnounceEvent::Completed
    );
    assert_eq!(
        parse_event(Some(b"Stopped")).expect_err("case matters").message,
        "invalid event"
    );
    assert!(parse_compact(None).unwrap());
    assert!(!parse_compact(Some(b"0")).unwrap());
    assert_eq!(
        parse_compact(Some(b"2")).expect_err("0 or 1").message,
        "compact must be 0 or 1"
    );
    assert_eq!(parse_format(None), ScrapeFormat::Bencode);
    assert_eq!(parse_format(Some(b"bencode")), ScrapeFormat::Bencode);
    assert_eq!(parse_format(Some(b"json")), ScrapeFormat::Json);
    assert_eq!(parse_format(Some(b"xml")), ScrapeFormat::Bencode);
    assert_eq!(parse_period(None), Period::Day);
    assert_eq!(parse_period(Some(b"week")).days(), 7);
    assert_eq!(parse_period(Some(b"month")).days(), 30);
    assert_eq!(parse_period(Some(b"day")).bucket_seconds(), 60);
    assert_eq!(parse_period(Some(b"year")), Period::Day);
    assert_eq!(requested_period(Some("period=week")), Period::Week);
    assert_eq!(requested_period(Some("period=%zz")), Period::Day);
    assert_eq!(requested_period(None), Period::Day);
}

#[test]
fn refusals_are_bencoded() {
    let error = ApiError::bad_request("missing port".to_owned());
    assert_eq!(error.status, 400);
    assert_eq!(error.body(), b"d14:failure reason12:missing porte");
    assert!(decode(&error.body()).is_ok());
    assert_eq!(ApiError::internal("x".to_owned()).status, 500);
}

#[test]
fn tokens_are_compared() {
    assert!(authenticate(None, None).is_ok());
    assert!(authenticate(Some("secret"), Some("Bearer secret")).is_ok());
    for provided in [None, Some("secret"), Some("Bearer Secret"), Some("Bearer secret2")] {
        let error = authenticate(Some("secret"), provided).expect_err("token differs");
        assert_eq!(error.status, 401);
        assert_eq!(error.message, "authentication required");
    }
}

#[test]
fn the_gate_counts_what_is_over_the_limit() {
    let mut limiter = RateLimiter::per_minute(1);
    let mut metrics = metrics();
    let source = ip("192.0.2.1");
    assert!(tracker_gate(None, None, source, &mut limiter, &mut metrics).is_ok());
    let error = tracker_gate(None, None, source, &mut limiter, &mut metrics)
        .expect_err("the limit is one");
    assert_eq!(error.status, 429);
    assert_eq!(error.message, "rate limit exceeded");
    assert!(exposed(&mut metrics).contains(
        "hive_requests_total{action=\"tracker\",protocol=\"http\",result=\"rate_limited\"} 1"
    ));
}

#[test]
fn announces_are_answered() {
    let mut state = TrackerState::default();
    let mut metrics = metrics();
    let query = "info_hash=aaaaaaaaaaaaaaaaaaaa&peer_id=bbbbbbbbbbbbbbbbbbbb&port=6881\
&uploaded=0&downloaded=0&left=0&event=completed";
    let reply = announce_at(
        Some(query),
        ip("127.0.0.1"),
        1800,
        NOW,
        &mut state,
        &mut metrics,
    )
    .expect("announce should be answered");
    assert_eq!(
        reply,
        b"d8:completei1e10:incompletei0e8:intervali1800e5:peers0:e"
    );
    let query = "info_hash=aaaaaaaaaaaaaaaaaaaa&peer_id=cccccccccccccccccccc&port=1\
&uploaded=0&downloaded=0&left=9";
    let reply = announce_at(
        Some(query),
        ip("127.0.0.2"),
        1800,
        NOW,
        &mut state,
        &mut metrics,
    )
    .expect("announce should be answered");
    assert_eq!(
        reply,
        b"d8:completei1e10:incompletei1e8:intervali1800e5:peers6:\x7f\x00\x00\x01\x1a\xe1e"
    );
    assert_eq!(state.stats(&[b'a'; 20]).downloaded, 1);
    let text = exposed(&mut metrics);
    assert!(text.contains("hive_active_peers 2"));
    assert!(text.contains("hive_announce_events_total{event=\"completed\",protocol=\"http\"} 1"));
}

#[test]
fn announces_list_at_most_200_peers() {
    let mut state = TrackerState::default();
    let mut metrics = metrics();
    for number in 0..250_u16 {
        let mut peer_id = [0; 20];
        peer_id[..2].copy_from_slice(&number.to_be_bytes());
        state.announce(
            [b'a'; 20],
            Peer {
                peer_id,
                ip: ip("127.0.0.1"),
                port: 6881,
                left: 1,
                last_seen: NOW,
            },
            AnnounceEvent::Started,
        );
    }
    for (wish, listed) in [("&numwant=1000", 1200), ("", 300), ("&numwant=2", 12)] {
        let query = format!(
            "info_hash=aaaaaaaaaaaaaaaaaaaa&peer_id=cccccccccccccccccccc&port=1\
&uploaded=0&downloaded=0&left=9{wish}"
        );
        let reply = announce_at(
            Some(&query),
            ip("127.0.0.2"),
            1800,
            NOW,
            &mut state,
            &mut metrics,
        )
        .expect("announce should be answered");
        let expected = format!("5:peers{listed}:");
        assert!(reply
            .windows(expected.len())
            .any(|window| window == expected.as_bytes()));
    }
}

#[test]
fn refused_announces_change_nothing() {
    let mut state = TrackerState::default();
    let mut metrics = metrics();
    let error = announce_at(
        None,
        ip("127.0.0.1"),
        1800,
        NOW,
        &mut state,
        &mut metrics,
    )
    .expect_err("nothing is asked");
    assert_eq!(error.message, "missing info_hash");
    assert_eq!(state.revision(), 0);
    assert!(!exposed(&mut metrics).contains("action=\"announce\""));
}

#[test]
fn full_scrapes_are_sorted_and_kept_until_a_change() {
    let mut state = TrackerState::default();
    state.set_downloaded([b'b'; 20], 2);
    state.set_downloaded([b'a'; 20], 1);
    let mut cache = ScrapeCache::default();
    let mut metrics = metrics();
    let expected = scrape_payload(&state, &vec![[b'a'; 20], [b'b'; 20]]);
    for _ in 0..2 {
        let (format, body) =
            scrape(None, &state, &mut cache, &mut metrics).expect("scrape should be answered");
        assert_eq!(format, ScrapeFormat::Bencode);
        assert_eq!(body, expected);
    }
    assert_eq!(cache.full_scrape_at(&state, 0), expected);
    state.set_downloaded([b'a'; 20], 5);
    let (_, body) =
        scrape(None, &state, &mut cache, &mut metrics).expect("scrape should be answered");
    assert_eq!(
        body,
        scrape_payload(&state, &vec![[b'a'; 20], [b'b'; 20]])
    );
    assert_ne!(body, expected);
}

#[test]
fn scrapes_are_written_as_json() {
    let mut state = TrackerState::default();
    let info_hash = [0, 1, 2, 3, 4, 5, 6, 7, 8, 9, 10, 11, 12, 13, 14, 15, 16, 17, 18, 19];
    state.set_downloaded(info_hash, 12);
    let mut cache = ScrapeCache::default();
    let mut metrics = metrics();
    let query =
        "info_hash=%00%01%02%03%04%05%06%07%08%09%0A%0B%0C%0D%0E%0F%10%11%12%13&format=json";
    let (format, body) = scrape(Some(query), &state, &mut cache, &mut metrics)
        .expect("scrape should be answered");
    assert_eq!(format, ScrapeFormat::Json);
    assert_eq!(
        String::from_utf8(body).unwrap(),
        "{\"files\":{\"000102030405060708090a0b0c0d0e0f10111213\":\
{\"complete\":0,\"downloaded\":12,\"incomplete\":0}}}"
    );
    assert_eq!(scrape_json(b"i1e"), None);
    let (format, body) = scrape(Some("format=xml"), &state, &mut cache, &mut metrics)
        .expect("scrape should be answered");
    assert_eq!(format, ScrapeFormat::Bencode);
    assert_eq!(body, scrape_payload(&state, &vec![info_hash]));
    assert_eq!(
        scrape(Some("info_hash=x"), &state, &mut cache, &mut metrics)
            .expect_err("too short")
            .message,
        "info_hash must be 20 bytes, got 1"
    );
}

#[test]
fn traffic_is_accounted() {
    assert_eq!(traffic_label("/announce"), "torrent_http");
    assert_eq!(traffic_label("/scrape"), "torrent_http");
    assert_eq!(traffic_label("/stats"), "web_http");
    assert_eq!(metadata_bytes(3, 9, &vec![(4, 9), (6, 3)]), 34);
    assert_eq!(metadata_bytes(usize::MAX, 1, &Vec::new()), usize::MAX);
    assert_eq!(exchange_bytes(34, Some(6), 100), (40, 100));
    assert_eq!(exchange_bytes(34, None, 0), (34, REQUEST_TOO_LARGE.len()));
}

#[test]
fn health_is_reported() {
    assert_eq!(health_report(true), (200, "ok", "ok"));
    assert_eq!(health_report(false), (503, "degraded", "unavailable"));
}

#[test]
fn the_population_is_shown() {
    let mut state = TrackerState::default();
    let mut metrics = metrics();
    state.restore(
        [1; 20],
        Peer {
            peer_id: [1; 20],
            ip: ip("::1"),
            port: 1,
            left: 0,
            last_seen: NOW,
        },
    );
    update_population(&state, &mut metrics);
    let text = exposed(&mut metrics);
    assert!(text.contains("hive_active_peers 1"));
    assert!(text.contains("hive_active_swarms 1"));
}

#[test]
fn escapes_are_decoded_in_either_case_and_part_by_part() {
    assert_eq!(percent_decode(b"%aB%Cd%EF%01").unwrap(), vec![0xab, 0xcd, 0xef, 1]);
    let first = percent_decode(b"a%2f").unwrap();
    let second = percent_decode(b"%2Fb+").unwrap();
    assert_eq!(percent_decode(b"a%2f%2Fb+").unwrap(), [first, second].concat());
    assert_eq!(
        percent_decode(b"a%2f%g0").expect_err("no hexadecimal").message,
        percent_decode(b"%g0").expect_err("no hexadecimal").message
    );
}
