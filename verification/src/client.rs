//! The client software behind a peer identifier, by the `aquatic_peer_id` crate.

use crate::state::PeerId;
use aquatic_peer_id::PeerClient as Detected;
use vstd::prelude::*;

verus! {

/// The client software that is told apart.
#[derive(Clone, Copy, Debug, Eq, PartialEq, Structural)]
pub enum Client {
    BitTorrent,
    Deluge,
    LibTorrentRakshasa,
    LibTorrentRasterbar,
    QBitTorrent,
    Transmission,
    UTorrent,
    UTorrentEmbedded,
    UTorrentMac,
    UTorrentWeb,
    Vuze,
    WebTorrent,
    WebTorrentDesktop,
    Mainline,
    Unknown,
}

/// The client that `aquatic_peer_id::PeerId::client` finds for the 20 bytes of
/// a peer identifier.
pub uninterp spec fn client_of(peer_id: Seq<u8>) -> Client;

/// `aquatic_peer_id::PeerId::client`: the client that the identifier names, as
/// far as it is told apart here. The version is dropped.
#[verifier::external_body]
fn find_client(peer_id: PeerId) -> (client: Client)
    ensures
        client == client_of(peer_id@),
{
    match aquatic_peer_id::PeerId(peer_id).client() {
        Detected::BitTorrent(_) => Client::BitTorrent, Detected::Deluge(_) => Client::Deluge,
        Detected::LibTorrentRakshasa(_) => Client::LibTorrentRakshasa,
        Detected::LibTorrentRasterbar(_) => Client::LibTorrentRasterbar,
        Detected::QBitTorrent(_) => Client::QBitTorrent,
        Detected::Transmission(_) => Client::Transmission,
        Detected::UTorrent(_) => Client::UTorrent, Detected::UTorrentMac(_) => Client::UTorrentMac,
        Detected::UTorrentEmbedded(_) => Client::UTorrentEmbedded,
        Detected::UTorrentWeb(_) => Client::UTorrentWeb, Detected::Vuze(_) => Client::Vuze,
        Detected::WebTorrent(_) => Client::WebTorrent,
        Detected::WebTorrentDesktop(_) => Client::WebTorrentDesktop,
        Detected::Mainline(_) => Client::Mainline, _ => Client::Unknown,
    }
}

/// The name of a client.
pub open spec fn client_text(client: Client) -> Seq<char> {
    match client {
        Client::BitTorrent => "BitTorrent"@,
        Client::Deluge => "Deluge"@,
        Client::LibTorrentRakshasa => "libTorrent (Rakshasa)"@,
        Client::LibTorrentRasterbar => "libtorrent (Rasterbar)"@,
        Client::QBitTorrent => "qBittorrent"@,
        Client::Transmission => "Transmission"@,
        Client::UTorrent => "uTorrent"@,
        Client::UTorrentEmbedded => "uTorrent Embedded"@,
        Client::UTorrentMac => "uTorrent Mac"@,
        Client::UTorrentWeb => "uTorrent Web"@,
        Client::Vuze => "Vuze"@,
        Client::WebTorrent => "WebTorrent"@,
        Client::WebTorrentDesktop => "WebTorrent Desktop"@,
        Client::Mainline => "Mainline"@,
        Client::Unknown => "Unknown"@,
    }
}

/// The name of a client.
pub fn client_name(client: Client) -> (name: &'static str)
    ensures
        name@ == client_text(client),
{
    match client {
        Client::BitTorrent => "BitTorrent",
        Client::Deluge => "Deluge",
        Client::LibTorrentRakshasa => "libTorrent (Rakshasa)",
        Client::LibTorrentRasterbar => "libtorrent (Rasterbar)",
        Client::QBitTorrent => "qBittorrent",
        Client::Transmission => "Transmission",
        Client::UTorrent => "uTorrent",
        Client::UTorrentEmbedded => "uTorrent Embedded",
        Client::UTorrentMac => "uTorrent Mac",
        Client::UTorrentWeb => "uTorrent Web",
        Client::Vuze => "Vuze",
        Client::WebTorrent => "WebTorrent",
        Client::WebTorrentDesktop => "WebTorrent Desktop",
        Client::Mainline => "Mainline",
        Client::Unknown => "Unknown",
    }
}

/// The name of the client software behind a peer identifier, without its
/// version.
pub fn detect(peer_id: PeerId) -> (name: &'static str)
    ensures
        name@ == client_text(client_of(peer_id@)),
{
    client_name(find_client(peer_id))
}

} // verus!
