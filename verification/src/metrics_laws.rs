//! What the traffic figures show after any history of requests.

use crate::exposition::FamilyModel;
use crate::metrics::{
    bucket_egress, bucket_ingress, bucket_requests, count_of, counted_up, counter_families,
    counts_hold, gauge_families, kind_of, label_index, law_only_the_named_count_moves,
    lemma_counts_stay_held, lemma_label_index, lemma_recent_sum_bound, lemma_recorded,
    lemma_since_bound, lemma_since_recent, nothing_counted, traffic_since, window_start,
    MetricsModel, ProtocolTraffic, TrafficBucket, TrafficKind,
};
use vstd::prelude::*;

verus! {

/// Something that happens to the traffic figures: a request is recorded, or a
/// snapshot is taken.
pub enum TrafficStep {
    Record { protocol: Seq<char>, ingress: u64, egress: u64, second: u64 },
    Snapshot { second: u64 },
}

/// What is summed up over requests.
pub enum TrafficMeasure {
    Requests,
    Ingress,
    Egress,
}

impl TrafficStep {
    /// When the step happens.
    pub open spec fn second(self) -> u64 {
        match self {
            TrafficStep::Record { second, .. } => second,
            TrafficStep::Snapshot { second } => second,
        }
    }

    /// What the step adds to a sum over all requests.
    pub open spec fn amount(self, measure: TrafficMeasure) -> nat {
        match self {
            TrafficStep::Record { ingress, egress, .. } => match measure {
                TrafficMeasure::Requests => 1,
                TrafficMeasure::Ingress => ingress as nat,
                TrafficMeasure::Egress => egress as nat,
            },
            TrafficStep::Snapshot { .. } => 0,
        }
    }

    /// Whether the step is a request of a kind that is less than 60 seconds old.
    pub open spec fn is_shown(self, kind: TrafficKind, now: u64) -> bool {
        match self {
            TrafficStep::Record { protocol, second, .. } => kind_of(protocol) == kind && second + 59
                >= now,
            TrafficStep::Snapshot { .. } => false,
        }
    }

    /// What is counted once the step has happened.
    pub open spec fn applied(self, model: MetricsModel) -> MetricsModel {
        match self {
            TrafficStep::Record { protocol, ingress, egress, second } => model.with_traffic(
                protocol,
                ingress,
                egress,
                second,
            ),
            TrafficStep::Snapshot { second } => model.snapshotted(second),
        }
    }
}

/// What is counted once the steps have happened to fresh metrics.
pub open spec fn after_steps(steps: Seq<TrafficStep>) -> MetricsModel
    decreases steps.len(),
{
    if steps.len() == 0 {
        nothing_counted()
    } else {
        steps.last().applied(after_steps(steps.drop_last()))
    }
}

/// The sum over all requests of a history.
pub open spec fn total_of(steps: Seq<TrafficStep>, measure: TrafficMeasure) -> nat
    decreases steps.len(),
{
    if steps.len() == 0 {
        0
    } else {
        total_of(steps.drop_last(), measure) + steps.last().amount(measure)
    }
}

/// The sum over the requests of one kind that are less than 60 seconds old.
pub open spec fn shown_of(
    steps: Seq<TrafficStep>,
    kind: TrafficKind,
    measure: TrafficMeasure,
    now: u64,
) -> nat
    decreases steps.len(),
{
    if steps.len() == 0 {
        0
    } else {
        shown_of(steps.drop_last(), kind, measure, now) + if steps.last().is_shown(kind, now) {
            steps.last().amount(measure)
        } else {
            0
        }
    }
}

/// Whether time never runs backwards over a history, up to `now`.
pub open spec fn in_order(steps: Seq<TrafficStep>, now: u64) -> bool {
    &&& forall|i: int, j: int|
        0 <= i <= j < steps.len() ==> (#[trigger] steps[i]).second() <= (
        #[trigger] steps[j]).second()
    &&& forall|i: int| 0 <= i < steps.len() ==> (#[trigger] steps[i]).second() <= now
}

/// Whether the sums over a history fit 64 bits.
pub open spec fn sums_fit(steps: Seq<TrafficStep>) -> bool {
    &&& total_of(steps, TrafficMeasure::Requests) <= u64::MAX
    &&& total_of(steps, TrafficMeasure::Ingress) <= u64::MAX
    &&& total_of(steps, TrafficMeasure::Egress) <= u64::MAX
}

/// The traffic of one kind that is shown at `now`.
pub open spec fn shown_traffic(steps: Seq<TrafficStep>, kind: TrafficKind, now: u64)
    -> ProtocolTraffic {
    ProtocolTraffic {
        ingress_bytes: shown_of(steps, kind, TrafficMeasure::Ingress, now) as u64,
        egress_bytes: shown_of(steps, kind, TrafficMeasure::Egress, now) as u64,
        requests_per_minute: shown_of(steps, kind, TrafficMeasure::Requests, now) as u64,
    }
}

/// How a bucket is weighed for a measure.
spec fn bucket_measure(measure: TrafficMeasure) -> spec_fn(TrafficBucket) -> nat {
    match measure {
        TrafficMeasure::Requests => bucket_requests(),
        TrafficMeasure::Ingress => bucket_ingress(),
        TrafficMeasure::Egress => bucket_egress(),
    }
}

/// Taking a snapshot keeps the counts in step with the window.
proof fn lemma_snapshot_holds(model: MetricsModel, second: u64)
    requires
        counts_hold(model),
    ensures
        counts_hold(model.snapshotted(second)),
{
    let after = model.snapshotted(second);
    let start = window_start(second);
    assert forall|kind: TrafficKind|
        traffic_since(after.window, kind, 0, bucket_requests()) <= (
        #[trigger] after.counters.of(kind)).requests && traffic_since(
            after.window,
            kind,
            0,
            bucket_ingress(),
        ) <= after.counters.of(kind).ingress_bytes && traffic_since(
            after.window,
            kind,
            0,
            bucket_egress(),
        ) <= after.counters.of(kind).egress_bytes by {
        assert(model.counters.of(kind).requests <= u64::MAX);
        lemma_recent_sum_bound(model.window, kind, start, bucket_requests());
        lemma_recent_sum_bound(model.window, kind, start, bucket_ingress());
        lemma_recent_sum_bound(model.window, kind, start, bucket_egress());
    }
}

/// The counters hold the sums over all requests.
proof fn lemma_totals(steps: Seq<TrafficStep>)
    requires
        sums_fit(steps),
    ensures
        counts_hold(after_steps(steps)),
        after_steps(steps).counters.requests() == total_of(steps, TrafficMeasure::Requests),
        after_steps(steps).counters.ingress() == total_of(steps, TrafficMeasure::Ingress),
        after_steps(steps).counters.egress() == total_of(steps, TrafficMeasure::Egress),
    decreases steps.len(),
{
    if steps.len() > 0 {
        lemma_totals(steps.drop_last());
        let before = after_steps(steps.drop_last());
        match steps.last() {
            TrafficStep::Record { protocol, ingress, egress, second } => {
                assert(before.has_room(ingress, egress));
                lemma_counts_stay_held(before, kind_of(protocol), ingress, egress, second);
            },
            TrafficStep::Snapshot { second } => {
                lemma_snapshot_holds(before, second);
            },
        }
    }
}

/// The window shows the requests of the last 60 seconds.
proof fn lemma_shown(
    steps: Seq<TrafficStep>,
    kind: TrafficKind,
    measure: TrafficMeasure,
    now: u64,
)
    requires
        sums_fit(steps),
        in_order(steps, now),
    ensures
        traffic_since(after_steps(steps).window, kind, window_start(now), bucket_measure(measure))
            == shown_of(steps, kind, measure, now),
    decreases steps.len(),
{
    if steps.len() > 0 {
        let head = steps.drop_last();
        let last = steps.len() - 1;
        assert(steps[last].second() <= now);
        assert(in_order(head, now)) by {
            assert forall|i: int, j: int| 0 <= i <= j < head.len() implies (
            #[trigger] head[i]).second() <= (#[trigger] head[j]).second() by {
                assert(steps[i].second() <= steps[j].second());
            }
            assert forall|i: int| 0 <= i < head.len() implies (#[trigger] head[i]).second()
                <= now by {
                assert(steps[i].second() <= now);
            }
        }
        lemma_totals(head);
        lemma_shown(head, kind, measure, now);
        let before = after_steps(head);
        let weight = bucket_measure(measure);
        match steps.last() {
            TrafficStep::Record { protocol, ingress, egress, second } => {
                let counted = kind_of(protocol);
                assert(before.counters.of(counted).requests <= before.counters.requests());
                lemma_recorded(
                    before.window,
                    counted,
                    ingress,
                    egress,
                    second,
                    kind,
                    window_start(now),
                    weight,
                    steps.last().amount(measure),
                );
            },
            TrafficStep::Snapshot { second } => {
                lemma_since_recent(
                    before.window,
                    kind,
                    window_start(second),
                    window_start(now),
                    weight,
                );
            },
        }
    }
}

/// What is shown of one kind is no more than was counted of it.
proof fn lemma_shown_fits(steps: Seq<TrafficStep>, kind: TrafficKind, now: u64)
    requires
        sums_fit(steps),
        in_order(steps, now),
    ensures
        ({
            let counts = after_steps(steps).counters.of(kind);
            &&& shown_of(steps, kind, TrafficMeasure::Requests, now) <= counts.requests
            &&& shown_of(steps, kind, TrafficMeasure::Ingress, now) <= counts.ingress_bytes
            &&& shown_of(steps, kind, TrafficMeasure::Egress, now) <= counts.egress_bytes
        }),
{
    let model = after_steps(steps);
    let start = window_start(now);
    lemma_totals(steps);
    lemma_shown(steps, kind, TrafficMeasure::Requests, now);
    lemma_shown(steps, kind, TrafficMeasure::Ingress, now);
    lemma_shown(steps, kind, TrafficMeasure::Egress, now);
    lemma_since_bound(model.window, kind, start, bucket_requests());
    lemma_since_bound(model.window, kind, start, bucket_ingress());
    lemma_since_bound(model.window, kind, start, bucket_egress());
    assert(model.counters.of(kind).requests <= u64::MAX);
}

/// After any history in which time never runs backwards, a snapshot shows for
/// each kind of traffic the requests that are less than 60 seconds old, and no
/// others; both kinds of HTTP together; and the sums over all requests ever
/// made. A second snapshot at the same time shows the same.
pub proof fn law_snapshot_shows_the_last_minute(steps: Seq<TrafficStep>, now: u64)
    requires
        in_order(steps, now),
        sums_fit(steps),
    ensures
        ({
            let model = after_steps(steps);
            let snapshot = model.snapshot_at(now);
            &&& snapshot.torrent_http == shown_traffic(steps, TrafficKind::TorrentHttp, now)
            &&& snapshot.web_http == shown_traffic(steps, TrafficKind::WebHttp, now)
            &&& snapshot.udp == shown_traffic(steps, TrafficKind::Udp, now)
            &&& snapshot.http.requests_per_minute == snapshot.torrent_http.requests_per_minute
                + snapshot.web_http.requests_per_minute
            &&& snapshot.http.ingress_bytes == snapshot.torrent_http.ingress_bytes
                + snapshot.web_http.ingress_bytes
            &&& snapshot.http.egress_bytes == snapshot.torrent_http.egress_bytes
                + snapshot.web_http.egress_bytes
            &&& snapshot.total_requests == total_of(steps, TrafficMeasure::Requests)
            &&& snapshot.total_ingress_bytes == total_of(steps, TrafficMeasure::Ingress)
            &&& snapshot.total_egress_bytes == total_of(steps, TrafficMeasure::Egress)
            &&& model.snapshotted(now).snapshot_at(now) == snapshot
        }),
        forall|kind: TrafficKind, measure: TrafficMeasure| #[trigger]
            shown_of(steps, kind, measure, now) <= u64::MAX,
{
    let model = after_steps(steps);
    lemma_totals(steps);
    lemma_minute(steps, TrafficKind::TorrentHttp, now);
    lemma_minute(steps, TrafficKind::WebHttp, now);
    lemma_minute(steps, TrafficKind::Udp, now);
    assert forall|kind: TrafficKind, measure: TrafficMeasure| #[trigger]
        shown_of(steps, kind, measure, now) <= u64::MAX by {
        lemma_shown_fits(steps, kind, now);
        match measure {
            TrafficMeasure::Requests => {},
            TrafficMeasure::Ingress => {},
            TrafficMeasure::Egress => {},
        }
    }
    assert(model.snapshotted(now).snapshot_at(now) == model.snapshot_at(now));
}

/// The window's traffic of one kind, before and after a snapshot.
proof fn lemma_minute(steps: Seq<TrafficStep>, kind: TrafficKind, now: u64)
    requires
        in_order(steps, now),
        sums_fit(steps),
    ensures
        crate::metrics::window_traffic(after_steps(steps).window, kind, now) == shown_traffic(
            steps,
            kind,
            now,
        ),
        crate::metrics::window_traffic(after_steps(steps).snapshotted(now).window, kind, now)
            == shown_traffic(steps, kind, now),
        shown_traffic(steps, kind, now).requests_per_minute <= after_steps(steps).counters.of(
            kind,
        ).requests,
        shown_traffic(steps, kind, now).ingress_bytes <= after_steps(steps).counters.of(
            kind,
        ).ingress_bytes,
        shown_traffic(steps, kind, now).egress_bytes <= after_steps(steps).counters.of(
            kind,
        ).egress_bytes,
{
    let window = after_steps(steps).window;
    let start = window_start(now);
    lemma_shown_fits(steps, kind, now);
    lemma_shown(steps, kind, TrafficMeasure::Requests, now);
    lemma_shown(steps, kind, TrafficMeasure::Ingress, now);
    lemma_shown(steps, kind, TrafficMeasure::Egress, now);
    lemma_since_recent(window, kind, start, start, bucket_requests());
    lemma_since_recent(window, kind, start, start, bucket_ingress());
    lemma_since_recent(window, kind, start, start, bucket_egress());
}

/// Where no two samples have the same labels, the count with some labels is that
/// of the sample with them, and zero where there is none.
pub proof fn law_count_is_that_of_the_labels(
    samples: Seq<(Seq<Seq<char>>, int)>,
    labels: Seq<Seq<char>>,
    index: int,
)
    requires
        forall|i: int, j: int|
            0 <= i < j < samples.len() ==> (#[trigger] samples[i]).0 != (#[trigger] samples[j]).0,
    ensures
        0 <= index < samples.len() && samples[index].0 == labels ==> count_of(samples, labels)
            == samples[index].1,
        (forall|i: int| 0 <= i < samples.len() ==> (#[trigger] samples[i]).0 != labels) ==> count_of(
            samples,
            labels,
        ) == 0,
{
    lemma_label_index(samples, labels);
    let found = label_index(samples, labels);
    if 0 <= index < samples.len() && samples[index].0 == labels {
        if found < index {
            assert(samples[found].0 != samples[index].0);
        }
        if index < found {
            assert(samples[index].0 != labels);
        }
    }
}

/// Counting up raises the count with some labels by one, from zero where there
/// was none, and leaves all other counts.
pub proof fn law_counting_adds_one(
    samples: Seq<(Seq<Seq<char>>, int)>,
    labels: Seq<Seq<char>>,
    other: Seq<Seq<char>>,
)
    requires
        other != labels,
        forall|i: int| 0 <= i < samples.len() ==> 0 <= (#[trigger] samples[i]).1 < u64::MAX,
    ensures
        count_of(counted_up(samples, labels), labels) == count_of(samples, labels) + 1,
        count_of(counted_up(samples, labels), other) == count_of(samples, other),
        count_of(Seq::empty(), labels) == 0,
{
    law_only_the_named_count_moves(samples, labels, other);
    lemma_label_index(samples, labels);
}

/// Requests and events are counted under their labels alone, and neither touches
/// anything else that is counted.
pub proof fn law_requests_and_events_are_counted(
    model: MetricsModel,
    protocol: Seq<char>,
    action: Seq<char>,
    result: Seq<char>,
    event: Seq<char>,
)
    requires
        forall|i: int|
            0 <= i < model.requests.len() ==> 0 <= (#[trigger] model.requests[i]).1 < u64::MAX,
        forall|i: int|
            0 <= i < model.announce_events.len() ==> 0 <= (#[trigger] model.announce_events[i]).1
                < u64::MAX,
    ensures
        count_of(
            model.with_request(protocol, action, result).requests,
            seq![protocol, action, result],
        ) == count_of(model.requests, seq![protocol, action, result]) + 1,
        forall|other: Seq<Seq<char>>|
            other != seq![protocol, action, result] ==> #[trigger] count_of(
                model.with_request(protocol, action, result).requests,
                other,
            ) == count_of(model.requests, other),
        model.with_request(protocol, action, result) == (MetricsModel {
            requests: model.with_request(protocol, action, result).requests,
            ..model
        }),
        count_of(model.with_event(protocol, event).announce_events, seq![protocol, event])
            == count_of(model.announce_events, seq![protocol, event]) + 1,
        forall|other: Seq<Seq<char>>|
            other != seq![protocol, event] ==> #[trigger] count_of(
                model.with_event(protocol, event).announce_events,
                other,
            ) == count_of(model.announce_events, other),
        model.with_event(protocol, event) == (MetricsModel {
            announce_events: model.with_event(protocol, event).announce_events,
            ..model
        }),
{
    let request = seq![protocol, action, result];
    let named = seq![protocol, event];
    assert(request.len() == 3 && named.len() == 2);
    assert(request != named);
    law_counting_adds_one(model.requests, request, named);
    law_counting_adds_one(model.announce_events, named, request);
    assert forall|other: Seq<Seq<char>>| other != request implies #[trigger] count_of(
        model.with_request(protocol, action, result).requests,
        other,
    ) == count_of(model.requests, other) by {
        law_counting_adds_one(model.requests, request, other);
    }
    assert forall|other: Seq<Seq<char>>| other != named implies #[trigger] count_of(
        model.with_event(protocol, event).announce_events,
        other,
    ) == count_of(model.announce_events, other) by {
        law_counting_adds_one(model.announce_events, named, other);
    }
}

/// The population is shown as it is set, as far as a gauge holds it, and nothing
/// else changes.
pub proof fn law_population_is_shown(model: MetricsModel, peers: usize, swarms: usize)
    requires
        peers <= i64::MAX,
        swarms <= i64::MAX,
    ensures
        model.with_population(peers, swarms).active_peers == peers,
        model.with_population(peers, swarms).active_swarms == swarms,
        model.with_population(peers, swarms).requests == model.requests,
        model.with_population(peers, swarms).announce_events == model.announce_events,
        model.with_population(peers, swarms).counters == model.counters,
        model.with_population(peers, swarms).window == model.window,
{
}

/// Traffic is told apart by its name.
pub proof fn law_traffic_is_told_apart(protocol: Seq<char>)
    ensures
        kind_of("torrent_http"@) == TrafficKind::TorrentHttp,
        kind_of("web_http"@) == TrafficKind::WebHttp,
        kind_of("udp"@) == TrafficKind::Udp,
        kind_of(protocol) == TrafficKind::TorrentHttp <==> protocol == "torrent_http"@,
        kind_of(protocol) == TrafficKind::WebHttp <==> protocol == "web_http"@,
{
    reveal_strlit("torrent_http");
    reveal_strlit("web_http");
    reveal_strlit("udp");
    assert("torrent_http"@.len() == 12 && "web_http"@.len() == 8 && "udp"@.len() == 3);
}

/// A request adds one and its bytes to the counters of its kind, and nothing to
/// those of the other kinds.
pub proof fn law_traffic_is_counted_by_kind(
    model: MetricsModel,
    protocol: Seq<char>,
    ingress: u64,
    egress: u64,
    second: u64,
    kind: TrafficKind,
)
    requires
        model.counters.requests() < u64::MAX,
        model.counters.ingress() + ingress <= u64::MAX,
        model.counters.egress() + egress <= u64::MAX,
    ensures
        ({
            let before = model.counters.of(kind);
            let after = model.with_traffic(protocol, ingress, egress, second).counters.of(kind);
            &&& kind == kind_of(protocol) ==> after.requests == before.requests + 1
                && after.ingress_bytes == before.ingress_bytes + ingress && after.egress_bytes
                == before.egress_bytes + egress
            &&& kind != kind_of(protocol) ==> after == before
        }),
        model.counters.of(TrafficKind::TorrentHttp) == model.counters.torrent_http,
        model.counters.of(TrafficKind::WebHttp) == model.counters.web_http,
        model.counters.of(TrafficKind::Udp) == model.counters.udp,
        model.counters.requests() == model.counters.torrent_http.requests
            + model.counters.web_http.requests + model.counters.udp.requests,
        model.counters.ingress() == model.counters.torrent_http.ingress_bytes
            + model.counters.web_http.ingress_bytes + model.counters.udp.ingress_bytes,
        model.counters.egress() == model.counters.torrent_http.egress_bytes
            + model.counters.web_http.egress_bytes + model.counters.udp.egress_bytes,
{
}

/// A snapshot sets the rates: the requests of the last minute of each kind, and
/// those of all kinds divided by 60 and rounded to the nearest number, halves
/// upwards. It changes no counter.
pub proof fn law_snapshot_sets_the_rates(model: MetricsModel, second: u64)
    requires
        model.snapshot_at(second).http.requests_per_minute + model.snapshot_at(
            second,
        ).udp.requests_per_minute <= i64::MAX,
        model.snapshot_at(second).torrent_http.requests_per_minute <= i64::MAX,
        model.snapshot_at(second).web_http.requests_per_minute <= i64::MAX,
    ensures
        ({
            let snapshot = model.snapshot_at(second);
            let after = model.snapshotted(second);
            let all = snapshot.http.requests_per_minute + snapshot.udp.requests_per_minute;
            &&& after.torrent_http_per_minute == snapshot.torrent_http.requests_per_minute
            &&& after.web_http_per_minute == snapshot.web_http.requests_per_minute
            &&& after.udp_per_minute == snapshot.udp.requests_per_minute
            &&& 60 * after.requests_per_second - 30 <= all < 60 * after.requests_per_second + 30
            &&& after.counters == model.counters
            &&& after.requests == model.requests
            &&& after.announce_events == model.announce_events
            &&& after.active_peers == model.active_peers
            &&& after.active_swarms == model.active_swarms
        }),
{
}

/// Whether a family with a name shows a value under some labels.
pub open spec fn shows(
    families: Seq<FamilyModel>,
    name: Seq<char>,
    labels: Seq<Seq<char>>,
    value: int,
) -> bool {
    exists|i: int, j: int|
        0 <= i < families.len() && families[i].name == name && 0 <= j < families[i].samples.len()
            && #[trigger] families[i].samples[j] == (labels, value)
}

/// A value is shown where its sample stands.
proof fn lemma_shows(
    families: Seq<FamilyModel>,
    i: int,
    j: int,
    name: Seq<char>,
    labels: Seq<Seq<char>>,
    value: int,
)
    requires
        0 <= i < families.len(),
        families[i].name == name,
        0 <= j < families[i].samples.len(),
        families[i].samples[j].0 =~= labels,
        families[i].samples[j].1 == value,
    ensures
        shows(families, name, labels, value),
{
    assert(families[i].samples[j] == (labels, value));
}

/// Everything that is counted is shown: the requests and events by their labels,
/// the traffic of each kind in either direction, the rates, and the population.
pub proof fn law_everything_counted_is_shown(model: MetricsModel)
    ensures
        ({
            let families = counter_families(model);
            &&& forall|i: int|
                0 <= i < model.requests.len() ==> shows(
                    families,
                    "hive_requests_total"@,
                    (#[trigger] model.requests[i]).0,
                    model.requests[i].1,
                )
            &&& forall|i: int|
                0 <= i < model.announce_events.len() ==> shows(
                    families,
                    "hive_announce_events_total"@,
                    (#[trigger] model.announce_events[i]).0,
                    model.announce_events[i].1,
                )
            &&& shows(
                families,
                "hive_traffic_bytes_total"@,
                seq!["torrent_http"@, "ingress"@],
                model.counters.torrent_http.ingress_bytes as int,
            )
            &&& shows(
                families,
                "hive_traffic_bytes_total"@,
                seq!["torrent_http"@, "egress"@],
                model.counters.torrent_http.egress_bytes as int,
            )
            &&& shows(
                families,
                "hive_traffic_bytes_total"@,
                seq!["web_http"@, "ingress"@],
                model.counters.web_http.ingress_bytes as int,
            )
            &&& shows(
                families,
                "hive_traffic_bytes_total"@,
                seq!["web_http"@, "egress"@],
                model.counters.web_http.egress_bytes as int,
            )
            &&& shows(
                families,
                "hive_traffic_bytes_total"@,
                seq!["udp"@, "ingress"@],
                model.counters.udp.ingress_bytes as int,
            )
            &&& shows(
                families,
                "hive_traffic_bytes_total"@,
                seq!["udp"@, "egress"@],
                model.counters.udp.egress_bytes as int,
            )
            &&& shows(
                families,
                "hive_traffic_requests_total"@,
                seq!["torrent_http"@],
                model.counters.torrent_http.requests as int,
            )
            &&& shows(
                families,
                "hive_traffic_requests_total"@,
                seq!["web_http"@],
                model.counters.web_http.requests as int,
            )
            &&& shows(
                families,
                "hive_traffic_requests_total"@,
                seq!["udp"@],
                model.counters.udp.requests as int,
            )
        }),
        ({
            let families = gauge_families(model);
            &&& shows(
                families,
                "hive_requests_per_minute"@,
                seq!["torrent_http"@],
                model.torrent_http_per_minute as int,
            )
            &&& shows(
                families,
                "hive_requests_per_minute"@,
                seq!["web_http"@],
                model.web_http_per_minute as int,
            )
            &&& shows(
                families,
                "hive_requests_per_minute"@,
                seq!["udp"@],
                model.udp_per_minute as int,
            )
            &&& shows(
                families,
                "hive_requests_per_second"@,
                Seq::empty(),
                model.requests_per_second as int,
            )
            &&& shows(families, "hive_active_peers"@, Seq::empty(), model.active_peers as int)
            &&& shows(families, "hive_active_swarms"@, Seq::empty(), model.active_swarms as int)
        }),
{
    let counted = counter_families(model);
    let gauged = gauge_families(model);
    let counters = model.counters;
    assert forall|i: int| 0 <= i < model.requests.len() implies shows(
        counted,
        "hive_requests_total"@,
        (#[trigger] model.requests[i]).0,
        model.requests[i].1,
    ) by {
        assert(counted[0].samples[i] == (model.requests[i].0, model.requests[i].1));
    }
    assert forall|i: int| 0 <= i < model.announce_events.len() implies shows(
        counted,
        "hive_announce_events_total"@,
        (#[trigger] model.announce_events[i]).0,
        model.announce_events[i].1,
    ) by {
        assert(counted[1].samples[i] == (model.announce_events[i].0, model.announce_events[i].1));
    }
    let bytes = "hive_traffic_bytes_total"@;
    lemma_shows(
        counted,
        2,
        0,
        bytes,
        seq!["torrent_http"@, "ingress"@],
        counters.torrent_http.ingress_bytes as int,
    );
    lemma_shows(
        counted,
        2,
        1,
        bytes,
        seq!["torrent_http"@, "egress"@],
        counters.torrent_http.egress_bytes as int,
    );
    lemma_shows(
        counted,
        2,
        2,
        bytes,
        seq!["web_http"@, "ingress"@],
        counters.web_http.ingress_bytes as int,
    );
    lemma_shows(
        counted,
        2,
        3,
        bytes,
        seq!["web_http"@, "egress"@],
        counters.web_http.egress_bytes as int,
    );
    lemma_shows(counted, 2, 4, bytes, seq!["udp"@, "ingress"@], counters.udp.ingress_bytes as int);
    lemma_shows(counted, 2, 5, bytes, seq!["udp"@, "egress"@], counters.udp.egress_bytes as int);
    let handled = "hive_traffic_requests_total"@;
    lemma_shows(
        counted,
        3,
        0,
        handled,
        seq!["torrent_http"@],
        counters.torrent_http.requests as int,
    );
    lemma_shows(counted, 3, 1, handled, seq!["web_http"@], counters.web_http.requests as int);
    lemma_shows(counted, 3, 2, handled, seq!["udp"@], counters.udp.requests as int);
    let rates = "hive_requests_per_minute"@;
    lemma_shows(gauged, 0, 0, rates, seq!["torrent_http"@], model.torrent_http_per_minute as int);
    lemma_shows(gauged, 0, 1, rates, seq!["web_http"@], model.web_http_per_minute as int);
    lemma_shows(gauged, 0, 2, rates, seq!["udp"@], model.udp_per_minute as int);
    lemma_shows(
        gauged,
        1,
        0,
        "hive_requests_per_second"@,
        Seq::empty(),
        model.requests_per_second as int,
    );
    lemma_shows(gauged, 2, 0, "hive_active_peers"@, Seq::empty(), model.active_peers as int);
    lemma_shows(gauged, 3, 0, "hive_active_swarms"@, Seq::empty(), model.active_swarms as int);
}

} // verus!
