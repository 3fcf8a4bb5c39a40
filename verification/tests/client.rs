use hive_tracker::client::{client_name, detect, Client};

#[test]
fn given_azureus_style_peer_id_when_detected_then_client_name_ignores_version() {
    let mut peer_id = [b'-'; 20];
    peer_id[..8].copy_from_slice(b"-qB4500-");

    assert_eq!(detect(peer_id), "qBittorrent");
}

#[test]
fn given_unrecognized_peer_id_when_detected_then_unknown_is_returned() {
    assert_eq!(detect([0xff; 20]), "Unknown");
}

#[test]
fn common_clients_are_told_apart() {
    for (prefix, name) in [
        (b"-TR3000-", "Transmission"),
        (b"-DE123s-", "Deluge"),
        (b"-UT3550-", client_name(Client::UTorrent)),
        (b"-AZ5750-", client_name(Client::Vuze)),
    ] {
        let mut peer_id = [b'-'; 20];
        peer_id[..8].copy_from_slice(prefix);
        assert_eq!(detect(peer_id), name);
    }
}
