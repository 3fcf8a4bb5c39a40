//! What an HTTP scrape asks for and is answered, said of its query string and of
//! the torrents' peers.

use crate::bencode::Node;
use crate::order::{law_sorting_is_by_bytes, sorted_hashes};
use crate::payload::{file_entries, scrape_node};
use crate::query::{all_values, first_value, parsed_query, QueryFault};
use crate::query_laws::{law_all_values_are_taken, law_identifiers_have_20_bytes};
use crate::scrape_json::{
    files_text, hex_of, joined, member_text, scrape_json_text, stats_text,
};
use crate::state::{InfoHash, Peer, TrackerModel};
use crate::swarm_laws::law_statistics_count_the_peers;
use crate::text::{decimal, hex_value};
use crate::web::{formatted, is_usable, lists_all, parsed_hashes, requested_scrape, ScrapeFormat};
use vstd::prelude::*;
use vstd::utf8::encode_utf8;

verus! {

/// Values are read as info hashes where each has 20 bytes: one for each value, in
/// their order.
proof fn lemma_hashes_are_read(values: Seq<Seq<u8>>)
    ensures
        parsed_hashes(values) is Ok <==> forall|i: int|
            0 <= i < values.len() ==> (#[trigger] values[i]).len() == 20,
        parsed_hashes(values) matches Ok(hashes) ==> hashes.len() == values.len() && forall|i: int|
            0 <= i < values.len() ==> (#[trigger] hashes[i])@ == values[i],
        parsed_hashes(values) matches Err(refusal) ==> refusal.status == 400,
    decreases values.len(),
{
    if values.len() > 0 {
        let head = values.drop_last();
        let last = values.len() - 1;
        lemma_hashes_are_read(head);
        law_identifiers_have_20_bytes(values.last(), "info_hash"@);
        if parsed_hashes(values) is Ok {
            assert forall|i: int| 0 <= i < values.len() implies (#[trigger] values[i]).len()
                == 20 by {
                if i < last {
                    assert(head[i] == values[i]);
                }
            }
            let before = parsed_hashes(head)->Ok_0;
            let hashes = parsed_hashes(values)->Ok_0;
            assert forall|i: int| 0 <= i < values.len() implies (#[trigger] hashes[i])@
                == values[i] by {
                if i < last {
                    assert(hashes[i] == before[i]);
                    assert(head[i] == values[i]);
                }
            }
        } else if forall|i: int| 0 <= i < values.len() ==> (#[trigger] values[i]).len() == 20 {
            assert forall|i: int| 0 <= i < head.len() implies (#[trigger] head[i]).len() == 20 by {
                assert(head[i] == values[i]);
            }
            assert(values[last].len() == 20);
        }
    }
}

/// A scrape is for the torrents that all its pairs named "info_hash" name, in
/// their order, and for all torrents where it has none. It is refused where one
/// of them has not 20 bytes. Its reply is JSON where the first value of "format"
/// is the word "json".
pub proof fn law_scrape_is_read(query: Seq<char>, pairs: Seq<(Seq<u8>, Seq<u8>)>)
    requires
        parsed_query(encode_utf8(query), 0) == Ok::<Seq<(Seq<u8>, Seq<u8>)>, QueryFault>(pairs),
    ensures
        requested_scrape(query) is Ok <==> forall|i: int|
            0 <= i < pairs.len() && (#[trigger] pairs[i]).0 == encode_utf8("info_hash"@)
                ==> pairs[i].1.len() == 20,
        requested_scrape(query) matches Err(refusal) ==> refusal.status == 400,
        requested_scrape(query) matches Ok((hashes, format)) ==> {
            &&& (hashes is None <==> forall|i: int|
                0 <= i < pairs.len() ==> (#[trigger] pairs[i]).0 != encode_utf8("info_hash"@))
            &&& hashes matches Some(hashes) ==> {
                &&& hashes.len() == pairs.filter(
                    |pair: (Seq<u8>, Seq<u8>)| pair.0 == encode_utf8("info_hash"@),
                ).len()
                &&& forall|i: int|
                    0 <= i < hashes.len() ==> (#[trigger] hashes[i])@ == pairs.filter(
                        |pair: (Seq<u8>, Seq<u8>)| pair.0 == encode_utf8("info_hash"@),
                    )[i].1
                &&& forall|i: int|
                    0 <= i < pairs.len() && (#[trigger] pairs[i]).0 == encode_utf8("info_hash"@)
                        ==> names(hashes, pairs[i].1)
            }
            &&& (format == ScrapeFormat::Json <==> first_value(pairs, encode_utf8("format"@))
                == Some(encode_utf8("json"@)))
        },
{
    let key = encode_utf8("info_hash"@);
    let has_key = |pair: (Seq<u8>, Seq<u8>)| pair.0 == encode_utf8("info_hash"@);
    let values = all_values(pairs, key);
    let named = pairs.filter(has_key);
    law_all_values_are_taken(pairs, key);
    lemma_hashes_are_read(values);
    assert(pairs.filter(|pair: (Seq<u8>, Seq<u8>)| pair.0 == key) == named) by {
        assert(has_key =~= (|pair: (Seq<u8>, Seq<u8>)| pair.0 == key));
    }
    assert forall|i: int| 0 <= i < values.len() implies (#[trigger] values[i]) == named[i].1
        && named[i].0 == key && pairs.contains(named[i]) by {
        pairs.lemma_filter_pred(has_key, i);
        assert(named.contains(named[i]));
        pairs.lemma_filter_contains_rev(has_key, named[i]);
    }
    if forall|i: int| 0 <= i < values.len() ==> (#[trigger] values[i]).len() == 20 {
        assert forall|i: int| 0 <= i < pairs.len() && (#[trigger] pairs[i]).0 == key implies
            pairs[i].1.len() == 20 by {
            assert(values.contains(pairs[i].1));
        }
    }
    if forall|i: int|
        0 <= i < pairs.len() && (#[trigger] pairs[i]).0 == key ==> pairs[i].1.len() == 20 {
        assert forall|i: int| 0 <= i < values.len() implies (#[trigger] values[i]).len() == 20 by {
            assert(values[i] == named[i].1);
            let k = choose|k: int| 0 <= k < pairs.len() && pairs[k] == named[i];
            assert(pairs[k].0 == key);
        }
    }
    if values.len() == 0 {
        assert forall|i: int| 0 <= i < pairs.len() implies (#[trigger] pairs[i]).0 != key by {
            if pairs[i].0 == key {
                assert(values.contains(pairs[i].1));
            }
        }
    } else {
        assert(values[0] == named[0].1);
        let k = choose|k: int| 0 <= k < pairs.len() && pairs[k] == named[0];
        assert(pairs[k].0 == key);
        if let Ok(hashes) = parsed_hashes(values) {
            assert forall|i: int| 0 <= i < pairs.len() && (#[trigger] pairs[i]).0 == key implies
                names(hashes, pairs[i].1) by {
                assert(values.contains(pairs[i].1));
                let j = choose|j: int| 0 <= j < values.len() && values[j] == pairs[i].1;
                assert(hashes[j]@ == pairs[i].1);
            }
        }
    }
}

/// Whether a value is among info hashes.
pub open spec fn names(hashes: Seq<InfoHash>, value: Seq<u8>) -> bool {
    exists|i: int| 0 <= i < hashes.len() && (#[trigger] hashes[i])@ == value
}

/// The statistics of a torrent as a dictionary.
pub open spec fn statistics(state: TrackerModel, info_hash: InfoHash) -> Node {
    let torrent = state.torrent(info_hash);
    Node::Dictionary(
        seq![
            (
                encode_utf8("complete"@),
                Node::Integer(torrent.peers.filter(|peer: Peer| peer.left == 0).len() as int),
            ),
            (encode_utf8("downloaded"@), Node::Integer(torrent.times_downloaded() as int)),
            (
                encode_utf8("incomplete"@),
                Node::Integer(torrent.peers.filter(|peer: Peer| peer.left != 0).len() as int),
            ),
        ],
    )
}

/// The reply to a scrape is a dictionary with the one key "files", and under it
/// one entry for every torrent that was asked for, and none else: its info hash,
/// and under that how many of its peers have nothing left, how often it was
/// downloaded, and how many of its peers have something left. The entries ascend
/// by their bytes.
pub proof fn law_scrape_reply_has_every_torrent(state: TrackerModel, hashes: Seq<InfoHash>)
    requires
        forall|info_hash: InfoHash| #[trigger]
            state.torrent(info_hash).peers.len() <= usize::MAX,
    ensures
        scrape_node(state, hashes) is Dictionary,
        scrape_node(state, hashes)->Dictionary_0.len() == 1,
        scrape_node(state, hashes)->Dictionary_0[0].0 == encode_utf8("files"@),
        scrape_node(state, hashes)->Dictionary_0[0].1 is Dictionary,
        ({
            let files = scrape_node(state, hashes)->Dictionary_0[0].1->Dictionary_0;
            &&& files.len() == hashes.len()
            &&& forall|info_hash: InfoHash| #[trigger]
                hashes.contains(info_hash) <==> files.contains(
                    (info_hash@, statistics(state, info_hash)),
                )
            &&& forall|i: int| #![trigger files[i]]
                0 <= i < files.len() ==> files[i].0.len() == 20 && names(hashes, files[i].0)
            &&& forall|i: int, j: int, k: int|
                #![trigger files[i].0[k], files[j].0[k]]
                0 <= i < j < files.len() && 0 <= k < 20 && (forall|l: int|
                    0 <= l < k ==> files[i].0[l] == #[trigger] files[j].0[l]) ==> files[i].0[k]
                    <= files[j].0[k]
        }),
{
    let sorted = sorted_hashes(hashes);
    let files = file_entries(state, sorted);
    law_sorting_is_by_bytes(hashes);
    assert forall|i: int| #![trigger files[i]] 0 <= i < files.len() implies files[i] == (
        sorted[i]@,
        statistics(state, sorted[i]),
    ) by {
        lemma_statistics(state, sorted[i]);
    }
    assert forall|info_hash: InfoHash| #[trigger] hashes.contains(info_hash) <==> files.contains(
        (info_hash@, statistics(state, info_hash)),
    ) by {
        assert(sorted.contains(info_hash) <==> hashes.contains(info_hash));
        if sorted.contains(info_hash) {
            let i = choose|i: int| 0 <= i < sorted.len() && sorted[i] == info_hash;
            assert(files[i] == (info_hash@, statistics(state, info_hash)));
        }
        if files.contains((info_hash@, statistics(state, info_hash))) {
            let i = choose|i: int|
                0 <= i < files.len() && files[i] == (info_hash@, statistics(state, info_hash));
            assert(sorted[i]@ == info_hash@);
            assert(sorted[i] =~= info_hash);
        }
    }
    assert forall|i: int| #![trigger files[i]] 0 <= i < files.len() implies files[i].0.len() == 20
        && names(hashes, files[i].0) by {
        assert(sorted.contains(sorted[i]));
        let j = choose|j: int| 0 <= j < hashes.len() && hashes[j] == sorted[i];
        assert(hashes[j]@ == files[i].0);
    }
    assert forall|i: int, j: int, k: int|
        #![trigger files[i].0[k], files[j].0[k]]
        0 <= i < j < files.len() && 0 <= k < 20 && (forall|l: int|
            0 <= l < k ==> files[i].0[l] == #[trigger] files[j].0[l]) implies files[i].0[k]
        <= files[j].0[k] by {
        assert(files[i] == (sorted[i]@, statistics(state, sorted[i])));
        assert(files[j] == (sorted[j]@, statistics(state, sorted[j])));
        assert forall|l: int| 0 <= l < k implies sorted[i]@[l] == #[trigger] sorted[j]@[l] by {
            assert(files[i].0[l] == files[j].0[l]);
        }
        assert(sorted[i]@[k] <= sorted[j]@[k]);
    }
}

/// Where every value of "info_hash" in a scrape has 20 bytes, the reply has an
/// entry with the torrent's statistics for every one of them.
pub proof fn law_every_named_torrent_is_answered(
    query: Seq<char>,
    pairs: Seq<(Seq<u8>, Seq<u8>)>,
    state: TrackerModel,
    index: int,
    info_hash: InfoHash,
)
    requires
        parsed_query(encode_utf8(query), 0) == Ok::<Seq<(Seq<u8>, Seq<u8>)>, QueryFault>(pairs),
        forall|i: int|
            0 <= i < pairs.len() && (#[trigger] pairs[i]).0 == encode_utf8("info_hash"@)
                ==> pairs[i].1.len() == 20,
        0 <= index < pairs.len(),
        pairs[index] == (encode_utf8("info_hash"@), info_hash@),
        forall|other: InfoHash| #[trigger] state.torrent(other).peers.len() <= usize::MAX,
    ensures
        requested_scrape(query) matches Ok((Some(hashes), format)) && scrape_node(
            state,
            hashes,
        )->Dictionary_0[0].1->Dictionary_0.contains((info_hash@, statistics(state, info_hash))),
{
    law_scrape_is_read(query, pairs);
    let hashes = requested_scrape(query)->Ok_0.0->Some_0;
    assert(pairs[index].0 == encode_utf8("info_hash"@));
    assert(names(hashes, pairs[index].1));
    let i = choose|i: int| 0 <= i < hashes.len() && (#[trigger] hashes[i])@ == pairs[index].1;
    assert(hashes[i] =~= info_hash);
    law_scrape_reply_has_every_torrent(state, hashes);
    assert(hashes.contains(info_hash));
}

/// The entry of a torrent counts its peers.
proof fn lemma_statistics(state: TrackerModel, info_hash: InfoHash)
    requires
        state.torrent(info_hash).peers.len() <= usize::MAX,
    ensures
        crate::payload::stats_node(state.torrent(info_hash).stats()) == statistics(
            state,
            info_hash,
        ),
{
    law_statistics_count_the_peers(state.torrent(info_hash));
    assert(crate::payload::stats_node(state.torrent(info_hash).stats())->Dictionary_0
        =~= statistics(state, info_hash)->Dictionary_0);
}

/// A scrape of all torrents is for every torrent that has peers or was ever
/// downloaded, once each, and for no other.
pub proof fn law_full_scrape_is_for_known_torrents(hashes: Seq<InfoHash>, state: TrackerModel)
    requires
        lists_all(hashes, state),
    ensures
        forall|info_hash: InfoHash| #[trigger]
            hashes.contains(info_hash) <==> state.torrent(info_hash).peers.len() > 0
                || state.torrent(info_hash).downloaded is Some,
        forall|i: int, j: int| 0 <= i < j < hashes.len() ==> hashes[i] != hashes[j],
{
    assert forall|info_hash: InfoHash| #[trigger]
        hashes.contains(info_hash) <==> state.torrent(info_hash).peers.len() > 0 || state.torrent(
            info_hash,
        ).downloaded is Some by {
        assert(hashes.to_set().contains(info_hash) <==> state.known().contains(info_hash));
    }
}

/// Bytes are written in hexadecimal as two lower-case digits each, the high one
/// first.
pub proof fn law_hex_text(bytes: Seq<u8>)
    ensures
        hex_of(bytes).len() == 2 * bytes.len(),
        forall|i: int|
            #![trigger bytes[i]]
            0 <= i < bytes.len() ==> hex_value(hex_of(bytes)[2 * i]) == Some((bytes[i] / 16) as u8)
                && hex_value(hex_of(bytes)[2 * i + 1]) == Some((bytes[i] % 16) as u8)
                && !(65 <= hex_of(bytes)[2 * i] <= 90) && !(65 <= hex_of(bytes)[2 * i + 1] <= 90),
    decreases bytes.len(),
{
    if bytes.len() > 0 {
        let head = bytes.drop_last();
        law_hex_text(head);
        assert forall|i: int|
            #![trigger bytes[i]]
            0 <= i < bytes.len() implies hex_value(hex_of(bytes)[2 * i]) == Some(
            (bytes[i] / 16) as u8,
        ) && hex_value(hex_of(bytes)[2 * i + 1]) == Some((bytes[i] % 16) as u8) && !(65 <= hex_of(
            bytes,
        )[2 * i] <= 90) && !(65 <= hex_of(bytes)[2 * i + 1] <= 90) by {
            if i < head.len() {
                assert(head[i] == bytes[i]);
                assert(hex_of(bytes)[2 * i] == hex_of(head)[2 * i]);
                assert(hex_of(bytes)[2 * i + 1] == hex_of(head)[2 * i + 1]);
            }
        }
    }
}

/// The member of a torrent in the JSON reply.
pub open spec fn json_member(state: TrackerModel, info_hash: InfoHash) -> Seq<u8> {
    let torrent = state.torrent(info_hash);
    encode_utf8("\""@) + hex_of(info_hash@) + encode_utf8("\":"@) + encode_utf8(
        "{\"complete\":"@,
    ) + decimal(torrent.peers.filter(|peer: Peer| peer.left == 0).len()) + encode_utf8(
        ",\"downloaded\":"@,
    ) + decimal(torrent.times_downloaded() as nat) + encode_utf8(",\"incomplete\":"@) + decimal(
        torrent.peers.filter(|peer: Peer| peer.left != 0).len(),
    ) + encode_utf8("}"@)
}

/// The JSON reply to a scrape is an object with the one key "files", and under it
/// a member for every torrent that was asked for, in the order of the bencoded
/// reply and with commas between them.
pub proof fn law_json_reply_has_every_torrent(
    state: TrackerModel,
    hashes: Seq<InfoHash>,
    members: Seq<Seq<u8>>,
    member: Seq<u8>,
)
    requires
        forall|info_hash: InfoHash| #[trigger]
            state.torrent(info_hash).peers.len() <= usize::MAX,
    ensures
        scrape_json_text(state, hashes) == encode_utf8("{\"files\":{"@) + joined(
            sorted_hashes(hashes).map_values(|info_hash: InfoHash| json_member(state, info_hash)),
        ) + encode_utf8("}}"@),
        joined(Seq::empty()) == Seq::<u8>::empty(),
        joined(seq![member]) == member,
        members.len() > 0 ==> joined(members.push(member)) == joined(members) + encode_utf8(","@)
            + member,
        formatted(state, hashes, ScrapeFormat::Json) == scrape_json_text(state, hashes),
        formatted(state, hashes, ScrapeFormat::Bencode) == crate::bencode::encode(
            scrape_node(state, hashes),
        ),
{
    assert(members.push(member).drop_last() =~= members);
    let sorted = sorted_hashes(hashes);
    let built = sorted.map_values(
        |info_hash: InfoHash|
            {
                let stats = state.torrent(info_hash).stats();
                member_text(
                    info_hash@,
                    stats_text(
                        stats.complete as nat,
                        stats.downloaded as nat,
                        stats.incomplete as nat,
                    ),
                )
            },
    );
    let wanted = sorted.map_values(|info_hash: InfoHash| json_member(state, info_hash));
    assert forall|i: int| 0 <= i < sorted.len() implies #[trigger] built[i] == wanted[i] by {
        law_statistics_count_the_peers(state.torrent(sorted[i]));
        assert(built[i] =~= wanted[i]);
    }
    assert(built =~= wanted);
    assert(scrape_json_text(state, hashes) == files_text(built));
}

/// A kept reply to a scrape of all torrents is used again for five seconds, while
/// no torrent changes.
pub proof fn law_kept_reply_is_used_for_five_seconds(
    state: TrackerModel,
    revision: u64,
    stored_at: u128,
    payload: Seq<u8>,
    moment: u128,
)
    requires
        stored_at <= moment,
    ensures
        is_usable(Some((revision, stored_at, payload)), state, moment) <==> revision
            == state.revision && moment < stored_at + 5_000_000_000,
        !is_usable(None, state, moment),
{
}

/// Whoever is refused is told why: a dictionary with the one key "failure reason",
/// and under it the reason. A request that is malformed has the status 400, one
/// without authorization 401, and one over the limit 429.
pub proof fn law_refusals_say_why(message: Seq<char>)
    ensures
        crate::query::refusal_node(message) is Dictionary,
        crate::query::refusal_node(message)->Dictionary_0.len() == 1,
        crate::query::refusal_node(message)->Dictionary_0[0] == (
            encode_utf8("failure reason"@),
            Node::Bytes(encode_utf8(message)),
        ),
        crate::query::bad_request(message).status == 400,
        crate::query::bad_request(message).message == message,
        crate::web::unauthorized().status == 401,
        crate::web::over_limit().status == 429,
{
}

} // verus!
