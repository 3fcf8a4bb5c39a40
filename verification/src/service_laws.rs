//! What holds of the service around the tracker: who may ask, how requests are
//! labelled and measured, and what the history adds up to.

use crate::health::{ends_with, reports_success};
use crate::metrics::TrafficSnapshot;
use crate::persistence::{
    egress_total, has_column, ingress_total, lacking, positive, saturated, saved,
    TrafficCheckpoint, TrafficPoint,
};
use crate::state::TrackerSummary;
use crate::web::{
    header_bytes, is_authorized, parsed_period, path_traffic, Period,
};
use vstd::prelude::*;
use vstd::utf8::encode_utf8;

verus! {

/// Without a token everyone may ask. With one, only a header that is the word
/// "Bearer", a space and that token may: another token and no header are refused.
pub proof fn law_only_the_token_authorizes(token: Seq<u8>, other: Seq<u8>, header: Option<Seq<u8>>)
    ensures
        is_authorized(None, header),
        is_authorized(Some(token), Some(encode_utf8("Bearer "@) + token)),
        other != token ==> !is_authorized(Some(token), Some(encode_utf8("Bearer "@) + other)),
        !is_authorized(Some(token), None),
        is_authorized(Some(token), header) ==> header is Some && header->Some_0.len() == 7
            + token.len(),
{
    reveal_strlit("Bearer ");
    vstd::utf8::is_ascii_chars_encode_utf8("Bearer "@);
    let start = encode_utf8("Bearer "@);
    assert(start.len() == 7);
    if other != token && start + other == start + token {
        assert((start + other).subrange(7, 7 + other.len() as int) =~= other);
        assert((start + token).subrange(7, 7 + token.len() as int) =~= token);
        assert(other.len() == token.len());
    }
}

/// Announces and scrapes are tracker traffic, and every other request is web
/// traffic.
pub proof fn law_tracker_paths_are_told_apart(path: Seq<char>)
    ensures
        path_traffic(path) == "torrent_http"@ <==> path == "/announce"@ || path == "/scrape"@,
        path_traffic(path) == "torrent_http"@ || path_traffic(path) == "web_http"@,
{
    reveal_strlit("torrent_http");
    reveal_strlit("web_http");
    assert("torrent_http"@.len() == 12 && "web_http"@.len() == 8);
}

/// A period is a week or a month where it is named so, and a day otherwise; it
/// has 7, 30 or 1 days.
pub proof fn law_periods_are_named(value: Option<Seq<u8>>)
    ensures
        parsed_period(value) == Period::Week <==> value == Some(encode_utf8("week"@)),
        parsed_period(value) == Period::Month <==> value == Some(encode_utf8("month"@)),
        parsed_period(value) == Period::Day || parsed_period(value) == Period::Week
            || parsed_period(value) == Period::Month,
        Period::Day.length() == 1,
        Period::Week.length() == 7,
        Period::Month.length() == 30,
{
    reveal_strlit("week");
    reveal_strlit("month");
    vstd::utf8::is_ascii_chars_encode_utf8("week"@);
    vstd::utf8::is_ascii_chars_encode_utf8("month"@);
    assert(encode_utf8("week"@).len() == 4);
    assert(encode_utf8("month"@).len() == 5);
}

/// Headers are measured by the bytes of their names and values.
pub proof fn law_headers_are_measured(headers: Seq<(usize, usize)>, name: usize, value: usize)
    ensures
        header_bytes(Seq::empty()) == 0,
        header_bytes(headers.push((name, value))) == header_bytes(headers) + name + value,
{
    assert(headers.push((name, value)).drop_last() =~= headers);
}

/// A response reports success where its first line ends with a space, the number
/// 200, a space and the word "OK", before a carriage return or not.
pub proof fn law_success_is_reported(head: Seq<u8>, line: Seq<u8>)
    ensures
        reports_success(head + encode_utf8(" 200 OK"@)),
        reports_success(head + encode_utf8(" 200 OK\r"@)),
        reports_success(line) ==> line.len() >= 7 && (line.subrange(line.len() - 7, line.len() as int)
            == encode_utf8(" 200 OK"@) || (line.len() >= 8 && line.subrange(
            line.len() - 8,
            line.len() as int,
        ) == encode_utf8(" 200 OK\r"@))),
{
    reveal_strlit(" 200 OK");
    reveal_strlit(" 200 OK\r");
    vstd::utf8::is_ascii_chars_encode_utf8(" 200 OK"@);
    vstd::utf8::is_ascii_chars_encode_utf8(" 200 OK\r"@);
    let plain = encode_utf8(" 200 OK"@);
    let returned = encode_utf8(" 200 OK\r"@);
    assert(plain.len() == 7 && returned.len() == 8);
    assert((head + plain).subrange((head + plain).len() - 7, (head + plain).len() as int)
        =~= plain);
    assert((head + returned).subrange(
        (head + returned).len() - 8,
        (head + returned).len() as int,
    ) =~= returned);
    assert(ends_with(head + plain, plain));
    assert(ends_with(head + returned, returned));
}

/// The totals of a history are the sums over its days, in each direction, as far
/// as 64 bits hold them.
pub proof fn law_history_adds_up_its_days(traffic: Seq<TrafficPoint>, point: TrafficPoint)
    ensures
        ingress_total(Seq::empty()) == 0,
        egress_total(Seq::empty()) == 0,
        ingress_total(traffic.push(point)) == ingress_total(traffic) + point.ingress_bytes,
        egress_total(traffic.push(point)) == egress_total(traffic) + point.egress_bytes,
        ingress_total(traffic) <= u64::MAX ==> saturated(ingress_total(traffic)) == ingress_total(
            traffic,
        ),
        ingress_total(traffic) > u64::MAX ==> saturated(ingress_total(traffic)) == u64::MAX,
{
    assert(traffic.push(point).drop_last() =~= traffic);
}

/// The columns that are lacking are those that do not exist, in their order.
pub proof fn law_lacking_columns_do_not_exist(existing: Seq<String>, columns: Seq<Seq<char>>)
    ensures
        lacking(existing, columns) == columns.filter(
            |column: Seq<char>| !has_column(existing, column),
        ),
    decreases columns.len(),
{
    reveal(Seq::filter);
    if columns.len() > 0 {
        law_lacking_columns_do_not_exist(existing, columns.drop_last());
    }
}

/// Numbers are saved as they are, as far as a signed integer of 64 bits holds
/// them, and read as they are unless they are negative.
pub proof fn law_numbers_are_saved(value: nat, stored: int)
    ensures
        value <= i64::MAX ==> saved(value) == value,
        value > i64::MAX ==> saved(value) == i64::MAX,
        stored >= 0 ==> positive(stored) == stored,
        stored < 0 ==> positive(stored) == 0,
{
}

/// A snapshot has the numbers of the summary under the minute of the clock, and
/// the traffic since the last one that was saved.
pub proof fn law_snapshot_has_the_numbers(
    checkpoint: TrafficCheckpoint,
    summary: TrackerSummary,
    uptime_seconds: u64,
    traffic: TrafficSnapshot,
    now: u64,
)
    requires
        summary.peers <= i64::MAX,
        summary.seeders <= i64::MAX,
        summary.leechers <= i64::MAX,
        summary.torrents <= i64::MAX,
        summary.completed <= i64::MAX,
        uptime_seconds <= i64::MAX,
        now <= i64::MAX,
        traffic.total_ingress_bytes <= i64::MAX,
        traffic.total_egress_bytes <= i64::MAX,
    ensures
        ({
            let write = checkpoint.planned(summary, uptime_seconds, traffic, now);
            &&& write.recorded_at % 60 == 0
            &&& write.recorded_at <= now < write.recorded_at + 60
            &&& write.peers == summary.peers
            &&& write.seeders == summary.seeders
            &&& write.leechers == summary.leechers
            &&& write.torrents == summary.torrents
            &&& write.completed == summary.completed
            &&& write.uptime_seconds == uptime_seconds
            &&& checkpoint.ingress_bytes <= traffic.total_ingress_bytes ==> write.ingress_delta
                == traffic.total_ingress_bytes - checkpoint.ingress_bytes
            &&& checkpoint.ingress_bytes > traffic.total_ingress_bytes ==> write.ingress_delta == 0
            &&& checkpoint.egress_bytes <= traffic.total_egress_bytes ==> write.egress_delta
                == traffic.total_egress_bytes - checkpoint.egress_bytes
            &&& checkpoint.egress_bytes > traffic.total_egress_bytes ==> write.egress_delta == 0
        }),
{
}

} // verus!
