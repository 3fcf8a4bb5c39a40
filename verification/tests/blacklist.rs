use hive_tracker::address::{parse_ip, IpAddress};
use hive_tracker::blacklist::{parse_info_hash, Blacklist, BlacklistError};

fn ip(text: &str) -> IpAddress {
    parse_ip(text.as_bytes()).expect("test address must parse")
}

#[test]
fn given_mixed_case_hash_and_ip_when_loaded_then_both_are_blocked() {
    let blacklist = Blacklist::from_contents(
        "# blocked entries\n\
         Aabbccddeeff0011223344556677889900Aabbcc # torrent\n\
         127.0.0.1 # client\n",
    )
    .expect("blacklist should parse");

    assert!(blacklist.contains_info_hash(
        &parse_info_hash(b"aabbccddeeff0011223344556677889900aabbcc").unwrap()
    ));
    assert!(blacklist.contains_ip(&ip("127.0.0.1")));
}

#[test]
fn given_invalid_hash_when_loaded_then_configuration_is_rejected() {
    let malformed = Blacklist::from_contents("not-a-hash");
    let non_ascii = Blacklist::from_contents(&"é".repeat(20));

    assert!(malformed.is_err());
    assert!(non_ascii.is_err());
}

#[test]
fn given_shared_blacklist_when_contents_change_then_new_entries_are_used() {
    let mut blacklist =
        Blacklist::from_contents("192.0.2.1\n").expect("blacklist should load");

    assert_eq!(blacklist.reload("192.0.2.2\n"), Ok(true));

    assert!(!blacklist.contains_ip(&ip("192.0.2.1")));
    assert!(blacklist.contains_ip(&ip("192.0.2.2")));
}

#[test]
fn given_invalid_update_when_contents_are_reloaded_then_last_valid_entries_are_retained() {
    let mut blacklist =
        Blacklist::from_contents("192.0.2.1\n").expect("blacklist should load");

    assert!(blacklist.reload("invalid\n").is_err());
    assert!(blacklist.contains_ip(&ip("192.0.2.1")));
}

#[test]
fn unchanged_entries_are_not_reported_as_changed() {
    let mut blacklist =
        Blacklist::from_contents("192.0.2.1\n::1\n").expect("blacklist should load");
    assert_eq!(blacklist.reload("# reordered\n::1\n192.0.2.1\n"), Ok(false));
    assert_eq!(blacklist.reload("::1\n"), Ok(true));
}

#[test]
fn a_wrong_entry_is_reported_with_its_line() {
    let unknown = Blacklist::from_contents("127.0.0.1\n\nnot-a-hash\n");
    assert_eq!(
        unknown.expect_err("entry should be refused").message(),
        "invalid entry on line 3: expected an IP address or 40-character hexadecimal info hash"
    );
    let contents = format!("\n {} # no hash", "é".repeat(20));
    let error = Blacklist::from_contents(&contents).expect_err("entry should be refused");
    assert_eq!(
        error,
        BlacklistError::InvalidInfoHash {
            line: 2,
            value: "é".repeat(20)
        }
    );
    assert_eq!(
        error.message(),
        format!(
            "invalid entry on line 2: invalid blacklist info hash {:?}: \
expected 40 hexadecimal characters",
            "é".repeat(20)
        )
    );
}

#[test]
fn comments_blank_lines_and_spaces_are_skipped() {
    let blacklist = Blacklist::from_contents("  \r\n\u{2003}192.0.2.7\u{a0}# note\r\n#only\n")
        .expect("blacklist should parse");
    assert_eq!(blacklist.ip_count(), 1);
    assert_eq!(blacklist.info_hash_count(), 0);
    assert!(blacklist.contains_ip(&ip("192.0.2.7")));
}

#[test]
fn entries_are_counted_once() {
    let hash = "00112233445566778899aabbccddeeff00112233".to_owned();
    let blacklist = Blacklist::from_entries(
        &vec![hash.clone(), hash.to_uppercase()],
        &vec![ip("192.0.2.1"), ip("192.0.2.1")],
    )
    .expect("entries should be accepted");
    assert_eq!(blacklist.info_hash_count(), 1);
    assert_eq!(blacklist.ip_count(), 1);
    assert_eq!(
        Blacklist::from_entries(&vec!["0\"0\n".to_owned()], &Vec::new())
            .expect_err("text is no info hash")
            .message(),
        "invalid blacklist info hash \"0\\\"0\\n\": expected 40 hexadecimal characters"
    );
    assert_eq!(Blacklist::default().ip_count(), 0);
}
