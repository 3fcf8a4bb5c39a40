//! What the tracker counts of its own work, and the traffic of the last minute.

use crate::exposition::{
    counter_samples, expose, exposed, gauge_samples, CounterFamily, CounterSample,
    FamilyModel, GaugeFamily, GaugeSample,
};
use crate::state::unix_timestamp;
use crate::text::{same_text, same_texts, texts};
use vstd::prelude::*;

verus! {

/// How many seconds the traffic window covers, the current one included.
pub const TRAFFIC_WINDOW_SECONDS: u64 = 60;

/// The traffic of one kind during the traffic window.
#[derive(Clone, Copy, Debug, Eq, PartialEq)]
pub struct ProtocolTraffic {
    pub ingress_bytes: u64,
    pub egress_bytes: u64,
    pub requests_per_minute: u64,
}

impl Default for ProtocolTraffic {
    fn default() -> (traffic: Self)
        ensures
            traffic == (ProtocolTraffic {
                ingress_bytes: 0,
                egress_bytes: 0,
                requests_per_minute: 0,
            }),
    {
        ProtocolTraffic { ingress_bytes: 0, egress_bytes: 0, requests_per_minute: 0 }
    }
}

/// The traffic during the traffic window and since the start.
#[derive(Clone, Copy, Debug, Eq, PartialEq)]
pub struct TrafficSnapshot {
    pub torrent_http: ProtocolTraffic,
    pub web_http: ProtocolTraffic,
    pub http: ProtocolTraffic,
    pub udp: ProtocolTraffic,
    pub total_requests: u64,
    pub total_ingress_bytes: u64,
    pub total_egress_bytes: u64,
}

impl Default for TrafficSnapshot {
    fn default() -> (snapshot: Self)
        ensures
            snapshot.torrent_http == snapshot.udp,
            snapshot.web_http == snapshot.udp,
            snapshot.http == snapshot.udp,
            snapshot.udp == (ProtocolTraffic {
                ingress_bytes: 0,
                egress_bytes: 0,
                requests_per_minute: 0,
            }),
            snapshot.total_requests == 0,
            snapshot.total_ingress_bytes == 0,
            snapshot.total_egress_bytes == 0,
    {
        TrafficSnapshot {
            torrent_http: ProtocolTraffic::default(),
            web_http: ProtocolTraffic::default(),
            http: ProtocolTraffic::default(),
            udp: ProtocolTraffic::default(),
            total_requests: 0,
            total_ingress_bytes: 0,
            total_egress_bytes: 0,
        }
    }
}

impl TrafficSnapshot {
    /// How many requests were handled during the traffic window. Divided by the
    /// seconds of the window, this is the request rate.
    pub fn requests_in_window(&self) -> (requests: u64)
        requires
            self.http.requests_per_minute + self.udp.requests_per_minute <= u64::MAX,
        ensures
            requests == self.http.requests_per_minute + self.udp.requests_per_minute,
    {
        self.http.requests_per_minute + self.udp.requests_per_minute
    }
}

/// The kinds of traffic that are told apart.
#[derive(Clone, Copy, Debug, Eq, PartialEq, Structural)]
pub enum TrafficKind {
    TorrentHttp,
    WebHttp,
    Udp,
}

/// The kind of traffic that a protocol's name stands for.
pub open spec fn kind_of(protocol: Seq<char>) -> TrafficKind {
    if protocol == "torrent_http"@ {
        TrafficKind::TorrentHttp
    } else if protocol == "web_http"@ {
        TrafficKind::WebHttp
    } else {
        TrafficKind::Udp
    }
}

/// The kind of traffic that a protocol's name stands for.
pub fn traffic_kind(protocol: &str) -> (kind: TrafficKind)
    ensures
        kind == kind_of(protocol@),
{
    if same_text(protocol, "torrent_http") {
        TrafficKind::TorrentHttp
    } else if same_text(protocol, "web_http") {
        TrafficKind::WebHttp
    } else {
        TrafficKind::Udp
    }
}

/// The traffic of one kind in one second.
#[derive(Clone, Copy, Debug, Eq, PartialEq)]
pub struct TrafficBucket {
    pub second: u64,
    pub kind: TrafficKind,
    pub ingress_bytes: u64,
    pub egress_bytes: u64,
    pub requests: u64,
}

/// The traffic of one kind since the start.
#[derive(Clone, Copy, Debug, Eq, PartialEq)]
pub struct TrafficCounts {
    pub requests: u64,
    pub ingress_bytes: u64,
    pub egress_bytes: u64,
}

/// The traffic of every kind since the start.
#[derive(Clone, Copy, Debug, Eq, PartialEq)]
pub struct TrafficCounters {
    pub torrent_http: TrafficCounts,
    pub web_http: TrafficCounts,
    pub udp: TrafficCounts,
}

impl TrafficCounters {
    /// The counts of one kind.
    pub open spec fn of(self, kind: TrafficKind) -> TrafficCounts {
        match kind {
            TrafficKind::TorrentHttp => self.torrent_http,
            TrafficKind::WebHttp => self.web_http,
            TrafficKind::Udp => self.udp,
        }
    }

    /// The requests of all kinds.
    pub open spec fn requests(self) -> nat {
        (self.torrent_http.requests + self.web_http.requests + self.udp.requests) as nat
    }

    /// The bytes received with requests of all kinds.
    pub open spec fn ingress(self) -> nat {
        (self.torrent_http.ingress_bytes + self.web_http.ingress_bytes + self.udp.ingress_bytes)
            as nat
    }

    /// The bytes sent in reply to requests of all kinds.
    pub open spec fn egress(self) -> nat {
        (self.torrent_http.egress_bytes + self.web_http.egress_bytes + self.udp.egress_bytes) as nat
    }

    /// The counts once a request of one kind was counted.
    pub open spec fn counted(self, kind: TrafficKind, ingress: u64, egress: u64) -> TrafficCounters {
        let before = self.of(kind);
        let after = TrafficCounts {
            requests: (before.requests + 1) as u64,
            ingress_bytes: (before.ingress_bytes + ingress) as u64,
            egress_bytes: (before.egress_bytes + egress) as u64,
        };
        match kind {
            TrafficKind::TorrentHttp => TrafficCounters { torrent_http: after, ..self },
            TrafficKind::WebHttp => TrafficCounters { web_http: after, ..self },
            TrafficKind::Udp => TrafficCounters { udp: after, ..self },
        }
    }
}

/// Weighs a bucket by its requests.
pub open spec fn bucket_requests() -> spec_fn(TrafficBucket) -> nat {
    |bucket: TrafficBucket| bucket.requests as nat
}

/// Weighs a bucket by the bytes received.
pub open spec fn bucket_ingress() -> spec_fn(TrafficBucket) -> nat {
    |bucket: TrafficBucket| bucket.ingress_bytes as nat
}

/// Weighs a bucket by the bytes sent.
pub open spec fn bucket_egress() -> spec_fn(TrafficBucket) -> nat {
    |bucket: TrafficBucket| bucket.egress_bytes as nat
}

/// What a bucket adds to the sum over one kind of traffic from `cutoff` on.
pub open spec fn bucket_weight(
    bucket: TrafficBucket,
    kind: TrafficKind,
    cutoff: u64,
    weight: spec_fn(TrafficBucket) -> nat,
) -> nat {
    if bucket.kind == kind && bucket.second >= cutoff {
        weight(bucket)
    } else {
        0
    }
}

/// The sum over one kind of traffic from second `cutoff` on.
pub open spec fn traffic_since(
    buckets: Seq<TrafficBucket>,
    kind: TrafficKind,
    cutoff: u64,
    weight: spec_fn(TrafficBucket) -> nat,
) -> nat
    decreases buckets.len(),
{
    if buckets.len() == 0 {
        0
    } else {
        traffic_since(buckets.drop_last(), kind, cutoff, weight) + bucket_weight(
            buckets.last(),
            kind,
            cutoff,
            weight,
        )
    }
}

/// The first second of the traffic window that ends with `second`.
pub open spec fn window_start(second: u64) -> u64 {
    if second >= TRAFFIC_WINDOW_SECONDS - 1 {
        (second - (TRAFFIC_WINDOW_SECONDS - 1)) as u64
    } else {
        0
    }
}

/// The buckets from second `cutoff` on, in their order.
pub open spec fn recent_buckets(buckets: Seq<TrafficBucket>, cutoff: u64) -> Seq<TrafficBucket>
    decreases buckets.len(),
{
    if buckets.len() == 0 {
        buckets
    } else if buckets.last().second >= cutoff {
        recent_buckets(buckets.drop_last(), cutoff).push(buckets.last())
    } else {
        recent_buckets(buckets.drop_last(), cutoff)
    }
}

/// The first bucket for a second and a kind of traffic, or the number of
/// buckets.
pub open spec fn bucket_index(buckets: Seq<TrafficBucket>, second: u64, kind: TrafficKind) -> int
    decreases buckets.len(),
{
    if buckets.len() == 0 {
        0
    } else {
        let before = bucket_index(buckets.drop_last(), second, kind);
        if before < buckets.len() - 1 || (buckets.last().second == second && buckets.last().kind
            == kind) {
            before
        } else {
            buckets.len() as int
        }
    }
}

/// The buckets once a request was recorded: those that have left the window are
/// gone, and the request is in the bucket for its second and kind.
pub open spec fn recorded(
    buckets: Seq<TrafficBucket>,
    kind: TrafficKind,
    ingress: u64,
    egress: u64,
    second: u64,
) -> Seq<TrafficBucket> {
    let recent = recent_buckets(buckets, window_start(second));
    let index = bucket_index(recent, second, kind);
    if index < recent.len() {
        let bucket = recent[index];
        recent.update(
            index,
            TrafficBucket {
                second,
                kind,
                ingress_bytes: (bucket.ingress_bytes + ingress) as u64,
                egress_bytes: (bucket.egress_bytes + egress) as u64,
                requests: (bucket.requests + 1) as u64,
            },
        )
    } else {
        recent.push(
            TrafficBucket {
                second,
                kind,
                ingress_bytes: ingress,
                egress_bytes: egress,
                requests: 1,
            },
        )
    }
}

/// The traffic of one kind in the window that ends with `second`.
pub open spec fn window_traffic(buckets: Seq<TrafficBucket>, kind: TrafficKind, second: u64)
    -> ProtocolTraffic {
    let start = window_start(second);
    ProtocolTraffic {
        ingress_bytes: traffic_since(buckets, kind, start, bucket_ingress()) as u64,
        egress_bytes: traffic_since(buckets, kind, start, bucket_egress()) as u64,
        requests_per_minute: traffic_since(buckets, kind, start, bucket_requests()) as u64,
    }
}

/// Two kinds of traffic together.
pub open spec fn combined(left: ProtocolTraffic, right: ProtocolTraffic) -> ProtocolTraffic {
    ProtocolTraffic {
        ingress_bytes: (left.ingress_bytes + right.ingress_bytes) as u64,
        egress_bytes: (left.egress_bytes + right.egress_bytes) as u64,
        requests_per_minute: (left.requests_per_minute + right.requests_per_minute) as u64,
    }
}

/// The place of the count with these labels, or the number of counts.
pub open spec fn label_index(samples: Seq<(Seq<Seq<char>>, int)>, labels: Seq<Seq<char>>) -> int
    decreases samples.len(),
{
    if samples.len() == 0 {
        0
    } else {
        let before = label_index(samples.drop_last(), labels);
        if before < samples.len() - 1 || samples.last().0 == labels {
            before
        } else {
            samples.len() as int
        }
    }
}

/// The number that follows `count` in 64 bits.
pub open spec fn next_count(count: int) -> int {
    if count < u64::MAX {
        count + 1
    } else {
        0
    }
}

/// The counts once the one with these labels was counted up by one. A count
/// starts over behind its largest value.
pub open spec fn counted_up(samples: Seq<(Seq<Seq<char>>, int)>, labels: Seq<Seq<char>>) -> Seq<
    (Seq<Seq<char>>, int),
> {
    let index = label_index(samples, labels);
    if index < samples.len() {
        samples.update(index, (labels, next_count(samples[index].1)))
    } else {
        samples.push((labels, 1))
    }
}

/// All that is counted, as plain values.
#[verifier::ext_equal]
pub struct MetricsModel {
    pub requests: Seq<(Seq<Seq<char>>, int)>,
    pub announce_events: Seq<(Seq<Seq<char>>, int)>,
    pub counters: TrafficCounters,
    pub window: Seq<TrafficBucket>,
    pub torrent_http_per_minute: i64,
    pub web_http_per_minute: i64,
    pub udp_per_minute: i64,
    pub requests_per_second: i64,
    pub active_peers: i64,
    pub active_swarms: i64,
}

impl MetricsModel {
    /// Whether one more request with so many bytes can be counted.
    pub open spec fn has_room(self, ingress: u64, egress: u64) -> bool {
        &&& self.counters.requests() < u64::MAX
        &&& self.counters.ingress() + ingress <= u64::MAX
        &&& self.counters.egress() + egress <= u64::MAX
    }

    /// What is counted once a request was counted.
    pub open spec fn with_request(self, protocol: Seq<char>, action: Seq<char>, result: Seq<char>)
        -> MetricsModel {
        MetricsModel {
            requests: counted_up(self.requests, seq![protocol, action, result]),
            ..self
        }
    }

    /// What is counted once an announce event was counted.
    pub open spec fn with_event(self, protocol: Seq<char>, event: Seq<char>) -> MetricsModel {
        MetricsModel {
            announce_events: counted_up(self.announce_events, seq![protocol, event]),
            ..self
        }
    }

    /// What is counted once the number of peers and swarms was set.
    pub open spec fn with_population(self, peers: usize, swarms: usize) -> MetricsModel {
        MetricsModel { active_peers: peers as i64, active_swarms: swarms as i64, ..self }
    }

    /// The traffic at `second`.
    pub open spec fn snapshot_at(self, second: u64) -> TrafficSnapshot {
        let torrent_http = window_traffic(self.window, TrafficKind::TorrentHttp, second);
        let web_http = window_traffic(self.window, TrafficKind::WebHttp, second);
        TrafficSnapshot {
            torrent_http,
            web_http,
            http: combined(torrent_http, web_http),
            udp: window_traffic(self.window, TrafficKind::Udp, second),
            total_requests: self.counters.requests() as u64,
            total_ingress_bytes: self.counters.ingress() as u64,
            total_egress_bytes: self.counters.egress() as u64,
        }
    }

    /// What is counted once a snapshot was taken at `second`: what has left the
    /// window is gone, and the rates show the snapshot. The rate per second is
    /// rounded to the nearest whole number, halves upwards.
    pub open spec fn snapshotted(self, second: u64) -> MetricsModel {
        let snapshot = self.snapshot_at(second);
        MetricsModel {
            window: recent_buckets(self.window, window_start(second)),
            torrent_http_per_minute: snapshot.torrent_http.requests_per_minute as i64,
            web_http_per_minute: snapshot.web_http.requests_per_minute as i64,
            udp_per_minute: snapshot.udp.requests_per_minute as i64,
            requests_per_second: ((snapshot.http.requests_per_minute
                + snapshot.udp.requests_per_minute + TRAFFIC_WINDOW_SECONDS / 2)
                / (TRAFFIC_WINDOW_SECONDS as int)) as i64,
            ..self
        }
    }

    /// What is counted once a request of some protocol was recorded.
    pub open spec fn with_traffic(self, protocol: Seq<char>, ingress: u64, egress: u64, second: u64)
        -> MetricsModel {
        let kind = kind_of(protocol);
        MetricsModel {
            counters: self.counters.counted(kind, ingress, egress),
            window: recorded(self.window, kind, ingress, egress, second),
            ..self
        }
    }
}

/// A position that holds the labels, with none before it, is the one found.
proof fn lemma_label_index_is(samples: Seq<(Seq<Seq<char>>, int)>, labels: Seq<Seq<char>>, index: int)
    requires
        0 <= index <= samples.len(),
        index < samples.len() ==> samples[index].0 == labels,
        forall|i: int| 0 <= i < index ==> (#[trigger] samples[i]).0 != labels,
    ensures
        label_index(samples, labels) == index,
    decreases samples.len(),
{
    if samples.len() > 0 {
        let head = samples.drop_last();
        if index < samples.len() {
            if index < head.len() {
                assert(head[index] == samples[index]);
                assert forall|i: int| 0 <= i < index implies (#[trigger] head[i]).0 != labels by {
                    assert(head[i] == samples[i]);
                }
                lemma_label_index_is(head, labels, index);
            } else {
                assert forall|i: int| 0 <= i < head.len() implies (#[trigger] head[i]).0
                    != labels by {
                    assert(head[i] == samples[i]);
                }
                lemma_label_index_is(head, labels, head.len() as int);
            }
        } else {
            assert forall|i: int| 0 <= i < head.len() implies (#[trigger] head[i]).0 != labels by {
                assert(head[i] == samples[i]);
            }
            lemma_label_index_is(head, labels, head.len() as int);
            assert(samples[samples.len() - 1].0 != labels);
        }
    }
}

/// Counts up the count with these labels.
fn count_up(samples: &mut Vec<CounterSample>, labels: Vec<String>)
    ensures
        counter_samples(final(samples)@) == counted_up(
            counter_samples(old(samples)@),
            texts(labels@),
        ),
{
    let ghost before = counter_samples(samples@);
    let ghost wanted = texts(labels@);
    let mut index: usize = 0;
    while index < samples.len()
        invariant
            0 <= index <= samples@.len(),
            before == counter_samples(samples@),
            *samples == *old(samples),
            wanted == texts(labels@),
            forall|i: int| 0 <= i < index ==> (#[trigger] before[i]).0 != wanted,
        decreases samples@.len() - index,
    {
        if same_texts(&samples[index].labels, &labels) {
            let count: u64 = samples[index].count;
            proof {
                lemma_label_index_is(before, wanted, index as int);
            }
            let next: u64 = if count < u64::MAX {
                count + 1
            } else {
                0
            };
            samples.set(index, CounterSample { labels, count: next });
            assert(counter_samples(samples@) =~= counted_up(before, wanted));
            return;
        }
        index = index + 1;
    }
    proof {
        lemma_label_index_is(before, wanted, index as int);
    }
    samples.push(CounterSample { labels, count: 1 });
    assert(counter_samples(samples@) =~= counted_up(before, wanted));
}

/// The count with these labels, or zero where there is none.
pub open spec fn count_of(samples: Seq<(Seq<Seq<char>>, int)>, labels: Seq<Seq<char>>) -> int {
    let index = label_index(samples, labels);
    if index < samples.len() {
        samples[index].1
    } else {
        0
    }
}

/// Counting up moves the count with these labels on by one, and no other.
pub proof fn law_only_the_named_count_moves(
    samples: Seq<(Seq<Seq<char>>, int)>,
    labels: Seq<Seq<char>>,
    other: Seq<Seq<char>>,
)
    requires
        other != labels,
        forall|i: int| 0 <= i < samples.len() ==> 0 <= (#[trigger] samples[i]).1 <= u64::MAX,
    ensures
        count_of(counted_up(samples, labels), labels) == next_count(count_of(samples, labels)),
        count_of(counted_up(samples, labels), other) == count_of(samples, other),
{
    lemma_label_index(samples, labels);
    lemma_label_index(samples, other);
    let index = label_index(samples, labels);
    let elsewhere = label_index(samples, other);
    let after = counted_up(samples, labels);
    assert forall|i: int| 0 <= i < index implies (#[trigger] after[i]).0 != labels by {
        assert(after[i] == samples[i]);
    }
    lemma_label_index_is(after, labels, index);
    let place = if elsewhere < samples.len() {
        elsewhere
    } else {
        after.len() as int
    };
    assert forall|i: int| 0 <= i < place implies (#[trigger] after[i]).0 != other by {
        if i < samples.len() && i != index {
            assert(after[i] == samples[i]);
        }
    }
    lemma_label_index_is(after, other, place);
}

/// The position found holds the labels, and none before it does.
pub proof fn lemma_label_index(samples: Seq<(Seq<Seq<char>>, int)>, labels: Seq<Seq<char>>)
    ensures
        0 <= label_index(samples, labels) <= samples.len(),
        label_index(samples, labels) < samples.len() ==> samples[label_index(samples, labels)].0
            == labels,
        forall|i: int|
            0 <= i < label_index(samples, labels) ==> (#[trigger] samples[i]).0 != labels,
    decreases samples.len(),
{
    if samples.len() > 0 {
        let head = samples.drop_last();
        lemma_label_index(head, labels);
        let found = label_index(head, labels);
        if found < head.len() {
            assert(head[found] == samples[found]);
        }
        assert forall|i: int| 0 <= i < label_index(samples, labels) implies (
        #[trigger] samples[i]).0 != labels by {
            if i < head.len() {
                assert(head[i] == samples[i]);
            }
        }
    }
}

/// The sum over more traffic is no smaller.
pub proof fn lemma_since_bound(
    buckets: Seq<TrafficBucket>,
    kind: TrafficKind,
    cutoff: u64,
    weight: spec_fn(TrafficBucket) -> nat,
)
    ensures
        traffic_since(buckets, kind, cutoff, weight) <= traffic_since(buckets, kind, 0, weight),
    decreases buckets.len(),
{
    if buckets.len() > 0 {
        lemma_since_bound(buckets.drop_last(), kind, cutoff, weight);
    }
}

/// Buckets that have left the window do not show in a later one.
pub proof fn lemma_since_recent(
    buckets: Seq<TrafficBucket>,
    kind: TrafficKind,
    start: u64,
    cutoff: u64,
    weight: spec_fn(TrafficBucket) -> nat,
)
    requires
        start <= cutoff,
    ensures
        traffic_since(recent_buckets(buckets, start), kind, cutoff, weight) == traffic_since(
            buckets,
            kind,
            cutoff,
            weight,
        ),
    decreases buckets.len(),
{
    if buckets.len() > 0 {
        lemma_since_recent(buckets.drop_last(), kind, start, cutoff, weight);
        let recent = recent_buckets(buckets, start);
        if buckets.last().second >= start {
            assert(recent.drop_last() =~= recent_buckets(buckets.drop_last(), start));
        }
    }
}

/// Every bucket of the window counts from its first second on.
proof fn lemma_recent_are_recent(buckets: Seq<TrafficBucket>, start: u64)
    ensures
        forall|i: int|
            0 <= i < recent_buckets(buckets, start).len() ==> (#[trigger] recent_buckets(
                buckets,
                start,
            )[i]).second >= start,
    decreases buckets.len(),
{
    if buckets.len() > 0 {
        lemma_recent_are_recent(buckets.drop_last(), start);
    }
}

/// Where every bucket counts, so does the whole.
proof fn lemma_since_all(
    buckets: Seq<TrafficBucket>,
    kind: TrafficKind,
    cutoff: u64,
    weight: spec_fn(TrafficBucket) -> nat,
)
    requires
        forall|i: int| 0 <= i < buckets.len() ==> (#[trigger] buckets[i]).second >= cutoff,
    ensures
        traffic_since(buckets, kind, cutoff, weight) == traffic_since(buckets, kind, 0, weight),
    decreases buckets.len(),
{
    if buckets.len() > 0 {
        assert(buckets[buckets.len() - 1].second >= cutoff);
        let head = buckets.drop_last();
        assert forall|i: int| 0 <= i < head.len() implies (#[trigger] head[i]).second >= cutoff by {
            assert(head[i] == buckets[i]);
        }
        lemma_since_all(head, kind, cutoff, weight);
    }
}

/// The sum once one bucket was replaced.
proof fn lemma_since_update(
    buckets: Seq<TrafficBucket>,
    index: int,
    bucket: TrafficBucket,
    kind: TrafficKind,
    cutoff: u64,
    weight: spec_fn(TrafficBucket) -> nat,
)
    requires
        0 <= index < buckets.len(),
    ensures
        traffic_since(buckets.update(index, bucket), kind, cutoff, weight) + bucket_weight(
            buckets[index],
            kind,
            cutoff,
            weight,
        ) == traffic_since(buckets, kind, cutoff, weight) + bucket_weight(
            bucket,
            kind,
            cutoff,
            weight,
        ),
    decreases buckets.len(),
{
    let updated = buckets.update(index, bucket);
    if index == buckets.len() - 1 {
        assert(updated.drop_last() =~= buckets.drop_last());
    } else {
        lemma_since_update(buckets.drop_last(), index, bucket, kind, cutoff, weight);
        assert(updated.drop_last() =~= buckets.drop_last().update(index, bucket));
    }
}

/// One bucket is part of the sum.
proof fn lemma_since_part(
    buckets: Seq<TrafficBucket>,
    index: int,
    kind: TrafficKind,
    weight: spec_fn(TrafficBucket) -> nat,
)
    requires
        0 <= index < buckets.len(),
        buckets[index].kind == kind,
    ensures
        weight(buckets[index]) <= traffic_since(buckets, kind, 0, weight),
    decreases buckets.len(),
{
    if index < buckets.len() - 1 {
        lemma_since_part(buckets.drop_last(), index, kind, weight);
    }
}

/// A bucket found is for its second and kind.
proof fn lemma_bucket_index(buckets: Seq<TrafficBucket>, second: u64, kind: TrafficKind)
    ensures
        0 <= bucket_index(buckets, second, kind) <= buckets.len(),
        bucket_index(buckets, second, kind) < buckets.len() ==> {
            let bucket = buckets[bucket_index(buckets, second, kind)];
            bucket.second == second && bucket.kind == kind
        },
        forall|i: int|
            0 <= i < bucket_index(buckets, second, kind) ==> !((#[trigger] buckets[i]).second
                == second && buckets[i].kind == kind),
    decreases buckets.len(),
{
    if buckets.len() > 0 {
        let head = buckets.drop_last();
        lemma_bucket_index(head, second, kind);
        let found = bucket_index(head, second, kind);
        if found < head.len() {
            assert(head[found] == buckets[found]);
        }
        assert forall|i: int| 0 <= i < bucket_index(buckets, second, kind) implies !((
        #[trigger] buckets[i]).second == second && buckets[i].kind == kind) by {
            if i < head.len() {
                assert(head[i] == buckets[i]);
            }
        }
    }
}

/// What recording a request adds to the sums that the window shows at
/// `cutoff`.
pub proof fn lemma_recorded(
    buckets: Seq<TrafficBucket>,
    kind: TrafficKind,
    ingress: u64,
    egress: u64,
    second: u64,
    shown: TrafficKind,
    cutoff: u64,
    weight: spec_fn(TrafficBucket) -> nat,
    added: nat,
)
    requires
        window_start(second) <= cutoff,
        weight == bucket_requests() && added == 1 || weight == bucket_ingress() && added == ingress
            || weight == bucket_egress() && added == egress,
        traffic_since(buckets, kind, 0, bucket_requests()) < u64::MAX,
        traffic_since(buckets, kind, 0, bucket_ingress()) + ingress <= u64::MAX,
        traffic_since(buckets, kind, 0, bucket_egress()) + egress <= u64::MAX,
    ensures
        traffic_since(recorded(buckets, kind, ingress, egress, second), shown, cutoff, weight)
            == traffic_since(buckets, shown, cutoff, weight) + if shown == kind && second >= cutoff {
            added
        } else {
            0
        },
{
    let start = window_start(second);
    let recent = recent_buckets(buckets, start);
    let index = bucket_index(recent, second, kind);
    lemma_bucket_index(recent, second, kind);
    lemma_since_recent(buckets, shown, start, cutoff, weight);
    let after = recorded(buckets, kind, ingress, egress, second);
    if index < recent.len() {
        lemma_since_part(recent, index, kind, bucket_requests());
        lemma_since_part(recent, index, kind, bucket_ingress());
        lemma_since_part(recent, index, kind, bucket_egress());
        lemma_recent_are_recent(buckets, start);
        lemma_since_all(recent, kind, start, bucket_requests());
        lemma_since_all(recent, kind, start, bucket_ingress());
        lemma_since_all(recent, kind, start, bucket_egress());
        lemma_since_recent(buckets, kind, start, start, bucket_requests());
        lemma_since_recent(buckets, kind, start, start, bucket_ingress());
        lemma_since_recent(buckets, kind, start, start, bucket_egress());
        lemma_since_bound(buckets, kind, start, bucket_requests());
        lemma_since_bound(buckets, kind, start, bucket_ingress());
        lemma_since_bound(buckets, kind, start, bucket_egress());
        lemma_since_update(recent, index, after[index], shown, cutoff, weight);
    } else {
        assert(after.drop_last() =~= recent);
    }
}

/// A request shows in the traffic window for the 60 seconds that start with its
/// own, under its own kind of traffic alone.
pub proof fn law_request_is_shown_for_a_minute(
    model: MetricsModel,
    protocol: Seq<char>,
    ingress: u64,
    egress: u64,
    second: u64,
    later: u64,
    shown: TrafficKind,
)
    requires
        second <= later,
        traffic_since(model.window, kind_of(protocol), 0, bucket_requests()) < u64::MAX,
        traffic_since(model.window, kind_of(protocol), 0, bucket_ingress()) + ingress <= u64::MAX,
        traffic_since(model.window, kind_of(protocol), 0, bucket_egress()) + egress <= u64::MAX,
    ensures
        ({
            let start = window_start(later);
            let before = model.window;
            let after = model.with_traffic(protocol, ingress, egress, second).window;
            let counts = shown == kind_of(protocol) && later - second < 60;
            &&& traffic_since(after, shown, start, bucket_requests()) == traffic_since(
                before,
                shown,
                start,
                bucket_requests(),
            ) + if counts {
                1
            } else {
                0int
            }
            &&& traffic_since(after, shown, start, bucket_ingress()) == traffic_since(
                before,
                shown,
                start,
                bucket_ingress(),
            ) + if counts {
                ingress as int
            } else {
                0
            }
            &&& traffic_since(after, shown, start, bucket_egress()) == traffic_since(
                before,
                shown,
                start,
                bucket_egress(),
            ) + if counts {
                egress as int
            } else {
                0
            }
        }),
{
    let kind = kind_of(protocol);
    let start = window_start(later);
    lemma_recorded(
        model.window,
        kind,
        ingress,
        egress,
        second,
        shown,
        start,
        bucket_requests(),
        1,
    );
    lemma_recorded(
        model.window,
        kind,
        ingress,
        egress,
        second,
        shown,
        start,
        bucket_ingress(),
        ingress as nat,
    );
    lemma_recorded(
        model.window,
        kind,
        ingress,
        egress,
        second,
        shown,
        start,
        bucket_egress(),
        egress as nat,
    );
}

/// The counter families that are shown.
pub open spec fn counter_families(model: MetricsModel) -> Seq<FamilyModel> {
    let counters = model.counters;
    seq![
        FamilyModel {
            counts: true,
            name: "hive_requests_total"@,
            help: "Tracker requests by protocol and action"@,
            labels: seq!["protocol"@, "action"@, "result"@],
            samples: model.requests,
        },
        FamilyModel {
            counts: true,
            name: "hive_announce_events_total"@,
            help: "Announce events received"@,
            labels: seq!["protocol"@, "event"@],
            samples: model.announce_events,
        },
        FamilyModel {
            counts: true,
            name: "hive_traffic_bytes_total"@,
            help: "Application traffic bytes by protocol and direction"@,
            labels: seq!["protocol"@, "direction"@],
            samples: seq![
                (seq!["torrent_http"@, "ingress"@], counters.torrent_http.ingress_bytes as int),
                (seq!["torrent_http"@, "egress"@], counters.torrent_http.egress_bytes as int),
                (seq!["web_http"@, "ingress"@], counters.web_http.ingress_bytes as int),
                (seq!["web_http"@, "egress"@], counters.web_http.egress_bytes as int),
                (seq!["udp"@, "ingress"@], counters.udp.ingress_bytes as int),
                (seq!["udp"@, "egress"@], counters.udp.egress_bytes as int),
            ],
        },
        FamilyModel {
            counts: true,
            name: "hive_traffic_requests_total"@,
            help: "Application requests handled since process start"@,
            labels: seq!["protocol"@],
            samples: seq![
                (seq!["torrent_http"@], counters.torrent_http.requests as int),
                (seq!["web_http"@], counters.web_http.requests as int),
                (seq!["udp"@], counters.udp.requests as int),
            ],
        },
    ]
}

/// A gauge family without labels.
pub open spec fn plain_gauge(name: Seq<char>, help: Seq<char>, level: i64) -> FamilyModel {
    FamilyModel {
        counts: false,
        name,
        help,
        labels: Seq::empty(),
        samples: seq![(Seq::empty(), level as int)],
    }
}

/// The gauge families that are shown.
pub open spec fn gauge_families(model: MetricsModel) -> Seq<FamilyModel> {
    seq![
        FamilyModel {
            counts: false,
            name: "hive_requests_per_minute"@,
            help: "Requests handled during the rolling 60-second window"@,
            labels: seq!["protocol"@],
            samples: seq![
                (seq!["torrent_http"@], model.torrent_http_per_minute as int),
                (seq!["web_http"@], model.web_http_per_minute as int),
                (seq!["udp"@], model.udp_per_minute as int),
            ],
        },
        plain_gauge(
            "hive_requests_per_second"@,
            "Rounded average requests per second during the rolling 60-second window"@,
            model.requests_per_second,
        ),
        plain_gauge(
            "hive_active_peers"@,
            "Peers currently in memory"@,
            model.active_peers,
        ),
        plain_gauge(
            "hive_active_swarms"@,
            "Swarms currently in memory"@,
            model.active_swarms,
        ),
    ]
}

/// One label value or name.
fn one(first: &str) -> (labels: Vec<String>)
    ensures
        texts(labels@) == seq![first@],
{
    let mut labels: Vec<String> = Vec::new();
    labels.push(first.to_owned());
    assert(texts(labels@) =~= seq![first@]);
    labels
}

/// Two label values or names.
fn two(first: &str, second: &str) -> (labels: Vec<String>)
    ensures
        texts(labels@) == seq![first@, second@],
{
    let mut labels: Vec<String> = one(first);
    let ghost before = texts(labels@);
    labels.push(second.to_owned());
    assert(texts(labels@) =~= before.push(second@));
    assert(texts(labels@) =~= seq![first@, second@]);
    labels
}

/// Three label values or names.
fn three(first: &str, second: &str, third: &str) -> (labels: Vec<String>)
    ensures
        texts(labels@) == seq![first@, second@, third@],
{
    let mut labels: Vec<String> = two(first, second);
    let ghost before = texts(labels@);
    labels.push(third.to_owned());
    assert(texts(labels@) =~= before.push(third@));
    assert(texts(labels@) =~= seq![first@, second@, third@]);
    labels
}

/// Copies counts.
fn copy_samples(samples: &Vec<CounterSample>) -> (copied: Vec<CounterSample>)
    ensures
        counter_samples(copied@) == counter_samples(samples@),
{
    let mut copied: Vec<CounterSample> = Vec::new();
    let mut index: usize = 0;
    while index < samples.len()
        invariant
            0 <= index <= samples@.len(),
            counter_samples(copied@) == counter_samples(samples@.take(index as int)),
        decreases samples@.len() - index,
    {
        let mut labels: Vec<String> = Vec::new();
        let mut place: usize = 0;
        let source: &CounterSample = &samples[index];
        while place < source.labels.len()
            invariant
                0 <= place <= source.labels@.len(),
                texts(labels@) == texts(source.labels@.take(place as int)),
            decreases source.labels@.len() - place,
        {
            let ghost before = texts(labels@);
            labels.push(source.labels[place].clone());
            assert(texts(labels@) =~= before.push(source.labels@[place as int]@));
            assert(texts(source.labels@.take(place + 1)) =~= texts(
                source.labels@.take(place as int),
            ).push(source.labels@[place as int]@));
            place = place + 1;
        }
        assert(source.labels@.take(place as int) =~= source.labels@);
        let ghost before = counter_samples(copied@);
        let count: u64 = source.count;
        copied.push(CounterSample { labels, count });
        assert(counter_samples(copied@) =~= before.push((texts(source.labels@), count as int)));
        assert(counter_samples(samples@.take(index + 1)) =~= counter_samples(
            samples@.take(index as int),
        ).push((texts(source.labels@), count as int)));
        index = index + 1;
    }
    assert(samples@.take(index as int) =~= samples@);
    copied
}

/// A gauge family without labels.
fn plain(name: &str, help: &str, level: i64) -> (family: GaugeFamily)
    ensures
        family@ == plain_gauge(name@, help@, level),
{
    let mut samples: Vec<GaugeSample> = Vec::new();
    samples.push(GaugeSample { labels: Vec::new(), level });
    let family = GaugeFamily {
        name: name.to_owned(),
        help: help.to_owned(),
        labels: Vec::new(),
        samples,
    };
    proof {
        assert(texts(family.labels@) =~= Seq::<Seq<char>>::empty());
        assert(texts(samples@[0].labels@) =~= Seq::<Seq<char>>::empty());
        assert(gauge_samples(samples@) =~= seq![(Seq::<Seq<char>>::empty(), level as int)]);
    }
    family
}

/// All that the tracker counts of its own work.
pub struct AppMetrics {
    requests: Vec<CounterSample>,
    announce_events: Vec<CounterSample>,
    counters: TrafficCounters,
    window: Vec<TrafficBucket>,
    torrent_http_per_minute: i64,
    web_http_per_minute: i64,
    udp_per_minute: i64,
    requests_per_second: i64,
    active_peers: i64,
    active_swarms: i64,
}

impl View for AppMetrics {
    type V = MetricsModel;

    closed spec fn view(&self) -> MetricsModel {
        MetricsModel {
            requests: counter_samples(self.requests@),
            announce_events: counter_samples(self.announce_events@),
            counters: self.counters,
            window: self.window@,
            torrent_http_per_minute: self.torrent_http_per_minute,
            web_http_per_minute: self.web_http_per_minute,
            udp_per_minute: self.udp_per_minute,
            requests_per_second: self.requests_per_second,
            active_peers: self.active_peers,
            active_swarms: self.active_swarms,
        }
    }
}

/// What is counted at the start.
pub open spec fn nothing_counted() -> MetricsModel {
    let none = TrafficCounts { requests: 0, ingress_bytes: 0, egress_bytes: 0 };
    MetricsModel {
        requests: Seq::empty(),
        announce_events: Seq::empty(),
        counters: TrafficCounters { torrent_http: none, web_http: none, udp: none },
        window: Seq::empty(),
        torrent_http_per_minute: 0,
        web_http_per_minute: 0,
        udp_per_minute: 0,
        requests_per_second: 0,
        active_peers: 0,
        active_swarms: 0,
    }
}

/// Whether the counts since the start hold what the window shows, and their
/// totals fit.
pub open spec fn counts_hold(model: MetricsModel) -> bool {
    &&& forall|kind: TrafficKind|
        traffic_since(model.window, kind, 0, bucket_requests()) <= (
        #[trigger] model.counters.of(kind)).requests && traffic_since(
            model.window,
            kind,
            0,
            bucket_ingress(),
        ) <= model.counters.of(kind).ingress_bytes && traffic_since(
            model.window,
            kind,
            0,
            bucket_egress(),
        ) <= model.counters.of(kind).egress_bytes
    &&& model.counters.requests() <= u64::MAX
    &&& model.counters.ingress() <= u64::MAX
    &&& model.counters.egress() <= u64::MAX
}

/// Whether every count has a value for each of so many labels.
pub open spec fn all_labelled(samples: Seq<(Seq<Seq<char>>, int)>, labels: nat) -> bool {
    forall|i: int| 0 <= i < samples.len() ==> (#[trigger] samples[i]).0.len() == labels
}

/// Counting up keeps every count labelled.
proof fn lemma_counted_up_labelled(samples: Seq<(Seq<Seq<char>>, int)>, labels: Seq<Seq<char>>)
    requires
        all_labelled(samples, labels.len()),
    ensures
        all_labelled(counted_up(samples, labels), labels.len()),
{
    lemma_label_index(samples, labels);
}

impl AppMetrics {
    /// The counts hold the window, and every count has its labels.
    pub closed spec fn valid(self) -> bool {
        &&& counts_hold(self@)
        &&& all_labelled(self@.requests, 3)
        &&& all_labelled(self@.announce_events, 2)
    }

    /// Metrics with nothing counted. Fails where the families cannot be shown.
    pub fn new() -> (result: Result<Self, prometheus::Error>)
        ensures
            result is Ok <==> exposed(
                counter_families(nothing_counted()) + gauge_families(nothing_counted()),
            ) is Some,
            result matches Ok(metrics) ==> metrics.valid() && metrics@ == nothing_counted(),
    {
        let none = TrafficCounts { requests: 0, ingress_bytes: 0, egress_bytes: 0 };
        let metrics = AppMetrics {
            requests: Vec::new(),
            announce_events: Vec::new(),
            counters: TrafficCounters { torrent_http: none, web_http: none, udp: none },
            window: Vec::new(),
            torrent_http_per_minute: 0,
            web_http_per_minute: 0,
            udp_per_minute: 0,
            requests_per_second: 0,
            active_peers: 0,
            active_swarms: 0,
        };
        assert(metrics@ =~= nothing_counted());
        match metrics.expose() {
            Ok(_) => Ok(metrics),
            Err(error) => Err(error),
        }
    }

    /// Counts a request.
    pub fn request(&mut self, protocol: &str, action: &str, result: &str)
        requires
            old(self).valid(),
        ensures
            final(self).valid(),
            final(self)@ == old(self)@.with_request(protocol@, action@, result@),
    {
        proof {
            lemma_counted_up_labelled(self@.requests, seq![protocol@, action@, result@]);
        }
        count_up(&mut self.requests, three(protocol, action, result));
        assert(self@ =~= old(self)@.with_request(protocol@, action@, result@));
    }

    /// Counts an announce event.
    pub fn announce(&mut self, protocol: &str, event: &str)
        requires
            old(self).valid(),
        ensures
            final(self).valid(),
            final(self)@ == old(self)@.with_event(protocol@, event@),
    {
        proof {
            lemma_counted_up_labelled(self@.announce_events, seq![protocol@, event@]);
        }
        count_up(&mut self.announce_events, two(protocol, event));
        assert(self@ =~= old(self)@.with_event(protocol@, event@));
    }

    /// Sets the number of peers and swarms in memory.
    pub fn set_population(&mut self, peers: usize, swarms: usize)
        requires
            old(self).valid(),
        ensures
            final(self).valid(),
            final(self)@ == old(self)@.with_population(peers, swarms),
    {
        self.active_peers = peers as i64;
        self.active_swarms = swarms as i64;
        assert(self@ =~= old(self)@.with_population(peers, swarms));
    }

    /// Whether one more request with so many bytes can be counted.
    pub fn has_room(&self, ingress_bytes: usize, egress_bytes: usize) -> (room: bool)
        requires
            self.valid(),
        ensures
            room == self@.has_room(ingress_bytes as u64, egress_bytes as u64),
    {
        let (requests, ingress, egress): (u64, u64, u64) = self.totals();
        requests < u64::MAX && ingress_bytes as u64 <= u64::MAX - ingress && egress_bytes as u64
            <= u64::MAX - egress
    }

    /// The requests and bytes of all kinds of traffic.
    fn totals(&self) -> (totals: (u64, u64, u64))
        requires
            self.valid(),
        ensures
            totals.0 == self@.counters.requests(),
            totals.1 == self@.counters.ingress(),
            totals.2 == self@.counters.egress(),
    {
        let counters: TrafficCounters = self.counters;
        (
            counters.torrent_http.requests + counters.web_http.requests + counters.udp.requests,
            counters.torrent_http.ingress_bytes + counters.web_http.ingress_bytes
                + counters.udp.ingress_bytes,
            counters.torrent_http.egress_bytes + counters.web_http.egress_bytes
                + counters.udp.egress_bytes,
        )
    }

    /// Records the bytes of a request that was just handled, by the clock.
    pub fn record_traffic(&mut self, protocol: &str, ingress_bytes: usize, egress_bytes: usize)
        requires
            old(self).valid(),
            old(self)@.has_room(ingress_bytes as u64, egress_bytes as u64),
        ensures
            final(self).valid(),
            exists|second: u64|
                final(self)@ == #[trigger] old(self)@.with_traffic(
                    protocol@,
                    ingress_bytes as u64,
                    egress_bytes as u64,
                    second,
                ),
    {
        let second: u64 = unix_timestamp();
        self.record_traffic_at(protocol, ingress_bytes as u64, egress_bytes as u64, second);
    }

    /// Takes out the buckets before second `cutoff`.
    fn prune_window(&mut self, cutoff: u64)
        ensures
            final(self)@ == (MetricsModel {
                window: recent_buckets(old(self)@.window, cutoff),
                ..old(self)@
            }),
    {
        let mut kept: Vec<TrafficBucket> = Vec::new();
        let mut index: usize = 0;
        while index < self.window.len()
            invariant
                *self == *old(self),
                0 <= index <= self.window@.len(),
                kept@ == recent_buckets(self.window@.take(index as int), cutoff),
            decreases self.window@.len() - index,
        {
            let bucket: TrafficBucket = self.window[index];
            assert(self.window@.take(index + 1).drop_last() =~= self.window@.take(index as int));
            if bucket.second >= cutoff {
                kept.push(bucket);
            }
            index = index + 1;
        }
        assert(self.window@.take(index as int) =~= self.window@);
        self.window = kept;
    }

    /// Records the bytes of a request at `second`.
    pub fn record_traffic_at(
        &mut self,
        protocol: &str,
        ingress_bytes: u64,
        egress_bytes: u64,
        second: u64,
    )
        requires
            old(self).valid(),
            old(self)@.has_room(ingress_bytes, egress_bytes),
        ensures
            final(self).valid(),
            final(self)@ == old(self)@.with_traffic(protocol@, ingress_bytes, egress_bytes, second),
    {
        let kind: TrafficKind = traffic_kind(protocol);
        let ghost before = self@;
        assert(before.counters.of(kind).requests <= before.counters.requests());
        let counters: TrafficCounters = self.counters;
        let counts: TrafficCounts = match kind {
            TrafficKind::TorrentHttp => counters.torrent_http,
            TrafficKind::WebHttp => counters.web_http,
            TrafficKind::Udp => counters.udp,
        };
        let counted = TrafficCounts {
            requests: counts.requests + 1,
            ingress_bytes: counts.ingress_bytes + ingress_bytes,
            egress_bytes: counts.egress_bytes + egress_bytes,
        };
        self.counters = match kind {
            TrafficKind::TorrentHttp => TrafficCounters { torrent_http: counted, ..counters },
            TrafficKind::WebHttp => TrafficCounters { web_http: counted, ..counters },
            TrafficKind::Udp => TrafficCounters { udp: counted, ..counters },
        };
        let cutoff: u64 = second.saturating_sub(TRAFFIC_WINDOW_SECONDS - 1);
        assert(cutoff == window_start(second));
        self.prune_window(cutoff);
        let ghost recent = self.window@;
        let mut index: usize = 0;
        while index < self.window.len() && !(self.window[index].second == second
            && self.window[index].kind == kind)
            invariant
                recent == self.window@,
                0 <= index <= recent.len(),
                forall|i: int|
                    0 <= i < index ==> !((#[trigger] recent[i]).second == second && recent[i].kind
                        == kind),
            decreases recent.len() - index,
        {
            index = index + 1;
        }
        proof {
            lemma_bucket_index(recent, second, kind);
            let found = bucket_index(recent, second, kind);
            if found < index {
                assert(!(recent[found].second == second && recent[found].kind == kind));
            }
            if index < found {
                assert(!(recent[index as int].second == second && recent[index as int].kind
                    == kind));
            }
            lemma_counts_stay_held(before, kind, ingress_bytes, egress_bytes, second);
        }
        if index < self.window.len() {
            let bucket: TrafficBucket = self.window[index];
            proof {
                lemma_since_part(recent, index as int, kind, bucket_requests());
                lemma_since_part(recent, index as int, kind, bucket_ingress());
                lemma_since_part(recent, index as int, kind, bucket_egress());
                lemma_recent_sum_bound(before.window, kind, cutoff, bucket_requests());
                lemma_recent_sum_bound(before.window, kind, cutoff, bucket_ingress());
                lemma_recent_sum_bound(before.window, kind, cutoff, bucket_egress());
            }
            self.window.set(
                index,
                TrafficBucket {
                    second,
                    kind,
                    ingress_bytes: bucket.ingress_bytes + ingress_bytes,
                    egress_bytes: bucket.egress_bytes + egress_bytes,
                    requests: bucket.requests + 1,
                },
            );
        } else {
            self.window.push(
                TrafficBucket { second, kind, ingress_bytes, egress_bytes, requests: 1 },
            );
        }
        assert(self@ =~= before.with_traffic(protocol@, ingress_bytes, egress_bytes, second));
    }

    /// The traffic now, by the clock.
    pub fn traffic_snapshot(&mut self) -> (snapshot: TrafficSnapshot)
        requires
            old(self).valid(),
        ensures
            final(self).valid(),
            exists|second: u64|
                snapshot == #[trigger] old(self)@.snapshot_at(second) && final(self)@ == old(
                    self)@.snapshotted(second),
            snapshot.http.requests_per_minute + snapshot.udp.requests_per_minute
                <= snapshot.total_requests,
    {
        let second: u64 = unix_timestamp();
        self.traffic_snapshot_at(second)
    }

    /// The traffic of one kind in the window, from second `cutoff` on.
    fn window_of(&self, kind: TrafficKind, Ghost(cutoff): Ghost<u64>) -> (traffic: ProtocolTraffic)
        requires
            self.valid(),
            forall|i: int| 0 <= i < self@.window.len() ==> (#[trigger] self@.window[i]).second
                >= cutoff,
        ensures
            traffic.ingress_bytes == traffic_since(self@.window, kind, cutoff, bucket_ingress()),
            traffic.egress_bytes == traffic_since(self@.window, kind, cutoff, bucket_egress()),
            traffic.requests_per_minute == traffic_since(
                self@.window,
                kind,
                cutoff,
                bucket_requests(),
            ),
            traffic.ingress_bytes <= self@.counters.of(kind).ingress_bytes,
            traffic.egress_bytes <= self@.counters.of(kind).egress_bytes,
            traffic.requests_per_minute <= self@.counters.of(kind).requests,
    {
        let mut traffic = ProtocolTraffic::default();
        let mut index: usize = 0;
        while index < self.window.len()
            invariant
                self.valid(),
                0 <= index <= self.window@.len(),
                traffic.ingress_bytes == traffic_since(
                    self.window@.take(index as int),
                    kind,
                    0,
                    bucket_ingress(),
                ),
                traffic.egress_bytes == traffic_since(
                    self.window@.take(index as int),
                    kind,
                    0,
                    bucket_egress(),
                ),
                traffic.requests_per_minute == traffic_since(
                    self.window@.take(index as int),
                    kind,
                    0,
                    bucket_requests(),
                ),
            decreases self.window@.len() - index,
        {
            let bucket: TrafficBucket = self.window[index];
            proof {
                let next = self.window@.take(index + 1);
                assert(next.drop_last() =~= self.window@.take(index as int));
                lemma_since_take(self.window@, kind, index + 1, bucket_ingress());
                lemma_since_take(self.window@, kind, index + 1, bucket_egress());
                lemma_since_take(self.window@, kind, index + 1, bucket_requests());
                assert(self@.counters.of(kind).requests <= u64::MAX);
            }
            if bucket.kind == kind {
                traffic = ProtocolTraffic {
                    ingress_bytes: traffic.ingress_bytes + bucket.ingress_bytes,
                    egress_bytes: traffic.egress_bytes + bucket.egress_bytes,
                    requests_per_minute: traffic.requests_per_minute + bucket.requests,
                };
            }
            index = index + 1;
        }
        proof {
            assert(self.window@.take(index as int) =~= self.window@);
            assert forall|i: int| 0 <= i < self.window@.len() implies (
            #[trigger] self.window@[i]).second >= cutoff by {
                assert(self@.window[i].second >= cutoff);
            }
            lemma_since_all(self.window@, kind, cutoff, bucket_ingress());
            lemma_since_all(self.window@, kind, cutoff, bucket_egress());
            lemma_since_all(self.window@, kind, cutoff, bucket_requests());
            assert(self@.counters.of(kind).requests <= u64::MAX);
        }
        traffic
    }

    /// The traffic at `second`. What has left the window is dropped, and the
    /// rates are set.
    pub fn traffic_snapshot_at(&mut self, second: u64) -> (snapshot: TrafficSnapshot)
        requires
            old(self).valid(),
        ensures
            final(self).valid(),
            snapshot == old(self)@.snapshot_at(second),
            final(self)@ == old(self)@.snapshotted(second),
            snapshot.http.requests_per_minute + snapshot.udp.requests_per_minute
                <= snapshot.total_requests,
    {
        let ghost before = self@;
        let (total_requests, total_ingress_bytes, total_egress_bytes): (u64, u64, u64) =
            self.totals();
        let cutoff: u64 = second.saturating_sub(TRAFFIC_WINDOW_SECONDS - 1);
        assert(cutoff == window_start(second));
        self.prune_window(cutoff);
        proof {
            lemma_recent_are_recent(before.window, cutoff);
            assert forall|kind: TrafficKind|
                traffic_since(self@.window, kind, 0, bucket_requests()) <= (
                #[trigger] self@.counters.of(kind)).requests && traffic_since(
                    self@.window,
                    kind,
                    0,
                    bucket_ingress(),
                ) <= self@.counters.of(kind).ingress_bytes && traffic_since(
                    self@.window,
                    kind,
                    0,
                    bucket_egress(),
                ) <= self@.counters.of(kind).egress_bytes by {
                assert(before.counters.of(kind).requests <= u64::MAX);
                lemma_recent_sum_bound(before.window, kind, cutoff, bucket_requests());
                lemma_recent_sum_bound(before.window, kind, cutoff, bucket_ingress());
                lemma_recent_sum_bound(before.window, kind, cutoff, bucket_egress());
            }
            assert(self.valid());
            assert forall|kind: TrafficKind, weight: spec_fn(TrafficBucket) -> nat| #[trigger]
                traffic_since(self@.window, kind, cutoff, weight) == traffic_since(
                    before.window,
                    kind,
                    cutoff,
                    weight,
                ) by {
                lemma_since_recent(before.window, kind, cutoff, cutoff, weight);
            }
        }
        let torrent_http: ProtocolTraffic = self.window_of(TrafficKind::TorrentHttp, Ghost(cutoff));
        let web_http: ProtocolTraffic = self.window_of(TrafficKind::WebHttp, Ghost(cutoff));
        let udp: ProtocolTraffic = self.window_of(TrafficKind::Udp, Ghost(cutoff));
        let http = ProtocolTraffic {
            ingress_bytes: torrent_http.ingress_bytes + web_http.ingress_bytes,
            egress_bytes: torrent_http.egress_bytes + web_http.egress_bytes,
            requests_per_minute: torrent_http.requests_per_minute + web_http.requests_per_minute,
        };
        let snapshot = TrafficSnapshot {
            torrent_http,
            web_http,
            http,
            udp,
            total_requests,
            total_ingress_bytes,
            total_egress_bytes,
        };
        self.torrent_http_per_minute = torrent_http.requests_per_minute as i64;
        self.web_http_per_minute = web_http.requests_per_minute as i64;
        self.udp_per_minute = udp.requests_per_minute as i64;
        let requests: u128 = snapshot.requests_in_window() as u128;
        self.requests_per_second = ((requests + (TRAFFIC_WINDOW_SECONDS / 2) as u128)
            / TRAFFIC_WINDOW_SECONDS as u128) as i64;
        assert(self@ =~= before.snapshotted(second));
        snapshot
    }

    /// The rounded request rate of the last snapshot.
    pub fn requests_per_second(&self) -> (rate: i64)
        ensures
            rate == self@.requests_per_second,
    {
        self.requests_per_second
    }

    /// The counters as metric families.
    pub fn counter_families(&self) -> (families: Vec<CounterFamily>)
        requires
            self.valid(),
        ensures
            crate::exposition::counter_models(families@) == counter_families(self@),
            forall|i: int| 0 <= i < families@.len() ==> (#[trigger] families@[i])@.is_consistent(),
    {
        let counters: TrafficCounters = self.counters;
        let requests = CounterFamily {
            name: "hive_requests_total".to_owned(),
            help: "Tracker requests by protocol and action".to_owned(),
            labels: three("protocol", "action", "result"),
            samples: copy_samples(&self.requests),
        };
        let announces = CounterFamily {
            name: "hive_announce_events_total".to_owned(),
            help: "Announce events received".to_owned(),
            labels: two("protocol", "event"),
            samples: copy_samples(&self.announce_events),
        };
        let mut bytes: Vec<CounterSample> = Vec::new();
        bytes.push(
            CounterSample {
                labels: two("torrent_http", "ingress"),
                count: counters.torrent_http.ingress_bytes,
            },
        );
        bytes.push(
            CounterSample {
                labels: two("torrent_http", "egress"),
                count: counters.torrent_http.egress_bytes,
            },
        );
        bytes.push(
            CounterSample {
                labels: two("web_http", "ingress"),
                count: counters.web_http.ingress_bytes,
            },
        );
        bytes.push(
            CounterSample {
                labels: two("web_http", "egress"),
                count: counters.web_http.egress_bytes,
            },
        );
        bytes.push(
            CounterSample { labels: two("udp", "ingress"), count: counters.udp.ingress_bytes },
        );
        bytes.push(
            CounterSample { labels: two("udp", "egress"), count: counters.udp.egress_bytes },
        );
        let ghost byte_samples = bytes@;
        let traffic_bytes = CounterFamily {
            name: "hive_traffic_bytes_total".to_owned(),
            help: "Application traffic bytes by protocol and direction".to_owned(),
            labels: two("protocol", "direction"),
            samples: bytes,
        };
        let mut handled: Vec<CounterSample> = Vec::new();
        handled.push(
            CounterSample { labels: one("torrent_http"), count: counters.torrent_http.requests },
        );
        handled.push(CounterSample { labels: one("web_http"), count: counters.web_http.requests });
        handled.push(CounterSample { labels: one("udp"), count: counters.udp.requests });
        let ghost handled_samples = handled@;
        let traffic_requests = CounterFamily {
            name: "hive_traffic_requests_total".to_owned(),
            help: "Application requests handled since process start".to_owned(),
            labels: one("protocol"),
            samples: handled,
        };
        proof {
            let wanted = counter_families(self@);
            assert(counter_samples(byte_samples) =~= wanted[2].samples);
            assert(counter_samples(handled_samples) =~= wanted[3].samples);
            assert(requests@ =~= wanted[0]);
            assert(announces@ =~= wanted[1]);
            assert(traffic_bytes@ =~= wanted[2]);
            assert(traffic_requests@ =~= wanted[3]);
        }
        let mut families: Vec<CounterFamily> = Vec::new();
        families.push(requests);
        families.push(announces);
        families.push(traffic_bytes);
        families.push(traffic_requests);
        assert(crate::exposition::counter_models(families@) =~= counter_families(self@));
        families
    }

    /// The gauges as metric families.
    pub fn gauge_families(&self) -> (families: Vec<GaugeFamily>)
        ensures
            crate::exposition::gauge_models(families@) == gauge_families(self@),
            forall|i: int| 0 <= i < families@.len() ==> (#[trigger] families@[i])@.is_consistent(),
    {
        let mut rates: Vec<GaugeSample> = Vec::new();
        rates.push(
            GaugeSample { labels: one("torrent_http"), level: self.torrent_http_per_minute },
        );
        rates.push(GaugeSample { labels: one("web_http"), level: self.web_http_per_minute });
        rates.push(GaugeSample { labels: one("udp"), level: self.udp_per_minute });
        let ghost rate_samples = rates@;
        let per_minute = GaugeFamily {
            name: "hive_requests_per_minute".to_owned(),
            help: "Requests handled during the rolling 60-second window".to_owned(),
            labels: one("protocol"),
            samples: rates,
        };
        proof {
            let wanted = gauge_families(self@);
            assert(gauge_samples(rate_samples) =~= wanted[0].samples);
            assert(per_minute@ =~= wanted[0]);
        }
        let mut families: Vec<GaugeFamily> = Vec::new();
        families.push(per_minute);
        families.push(
            plain(
                "hive_requests_per_second",
                "Rounded average requests per second during the rolling 60-second window",
                self.requests_per_second,
            ),
        );
        families.push(plain("hive_active_peers", "Peers currently in memory", self.active_peers));
        families.push(plain("hive_active_swarms", "Swarms currently in memory", self.active_swarms));
        assert(crate::exposition::gauge_models(families@) =~= gauge_families(self@));
        families
    }

    /// Writes all metrics as text.
    fn expose(&self) -> (result: Result<Vec<u8>, prometheus::Error>)
        requires
            self.valid(),
        ensures
            match result {
                Ok(text) => exposed(counter_families(self@) + gauge_families(self@)) == Some(text@),
                Err(_) => exposed(counter_families(self@) + gauge_families(self@)) is None,
            },
    {
        expose(&self.counter_families(), &self.gauge_families())
    }

    /// Writes all metrics as text, with the rates at `second`.
    pub fn encode_at(&mut self, second: u64) -> (result: Result<Vec<u8>, prometheus::Error>)
        requires
            old(self).valid(),
        ensures
            final(self).valid(),
            final(self)@ == old(self)@.snapshotted(second),
            match result {
                Ok(text) => exposed(
                    counter_families(final(self)@) + gauge_families(final(self)@),
                ) == Some(text@),
                Err(_) => exposed(
                    counter_families(final(self)@) + gauge_families(final(self)@),
                ) is None,
            },
    {
        self.traffic_snapshot_at(second);
        self.expose()
    }

    /// Writes all metrics as text, with the rates of now, by the clock.
    pub fn encode(&mut self) -> (result: Result<Vec<u8>, prometheus::Error>)
        requires
            old(self).valid(),
        ensures
            final(self).valid(),
            exists|second: u64| final(self)@ == #[trigger] old(self)@.snapshotted(second),
            match result {
                Ok(text) => exposed(
                    counter_families(final(self)@) + gauge_families(final(self)@),
                ) == Some(text@),
                Err(_) => exposed(
                    counter_families(final(self)@) + gauge_families(final(self)@),
                ) is None,
            },
    {
        let second: u64 = unix_timestamp();
        self.encode_at(second)
    }
}

/// The sum over part of the window is no larger than over all of it.
proof fn lemma_since_take(
    buckets: Seq<TrafficBucket>,
    kind: TrafficKind,
    count: int,
    weight: spec_fn(TrafficBucket) -> nat,
)
    requires
        0 <= count <= buckets.len(),
    ensures
        traffic_since(buckets.take(count), kind, 0, weight) <= traffic_since(
            buckets,
            kind,
            0,
            weight,
        ),
    decreases buckets.len() - count,
{
    if count == buckets.len() {
        assert(buckets.take(count) =~= buckets);
    } else {
        lemma_since_take(buckets, kind, count + 1, weight);
        assert(buckets.take(count + 1).drop_last() =~= buckets.take(count));
    }
}

/// The sum over the recent buckets is no larger than over all of them.
pub proof fn lemma_recent_sum_bound(
    buckets: Seq<TrafficBucket>,
    kind: TrafficKind,
    start: u64,
    weight: spec_fn(TrafficBucket) -> nat,
)
    ensures
        traffic_since(recent_buckets(buckets, start), kind, 0, weight) <= traffic_since(
            buckets,
            kind,
            0,
            weight,
        ),
{
    lemma_recent_are_recent(buckets, start);
    lemma_since_all(recent_buckets(buckets, start), kind, start, weight);
    lemma_since_recent(buckets, kind, start, start, weight);
    lemma_since_bound(buckets, kind, start, weight);
}

/// Recording a request keeps the counts in step with the window.
pub proof fn lemma_counts_stay_held(
    before: MetricsModel,
    kind: TrafficKind,
    ingress: u64,
    egress: u64,
    second: u64,
)
    requires
        counts_hold(before),
        before.has_room(ingress, egress),
    ensures
        counts_hold(
            MetricsModel {
                counters: before.counters.counted(kind, ingress, egress),
                window: recorded(before.window, kind, ingress, egress, second),
                ..before
            },
        ),
{
    let after = recorded(before.window, kind, ingress, egress, second);
    let counters = before.counters.counted(kind, ingress, egress);
    let start = window_start(second);
    assert(before.counters.of(kind).requests <= before.counters.requests());
    assert forall|shown: TrafficKind|
        traffic_since(after, shown, 0, bucket_requests()) <= (
        #[trigger] counters.of(shown)).requests && traffic_since(after, shown, 0, bucket_ingress())
            <= counters.of(shown).ingress_bytes && traffic_since(after, shown, 0, bucket_egress())
            <= counters.of(shown).egress_bytes by {
        assert(before.counters.of(shown).requests <= u64::MAX);
        lemma_recorded_are_recent(before.window, kind, ingress, egress, second);
        lemma_since_all(after, shown, start, bucket_requests());
        lemma_since_all(after, shown, start, bucket_ingress());
        lemma_since_all(after, shown, start, bucket_egress());
        lemma_recorded(
            before.window,
            kind,
            ingress,
            egress,
            second,
            shown,
            start,
            bucket_requests(),
            1,
        );
        lemma_recorded(
            before.window,
            kind,
            ingress,
            egress,
            second,
            shown,
            start,
            bucket_ingress(),
            ingress as nat,
        );
        lemma_recorded(
            before.window,
            kind,
            ingress,
            egress,
            second,
            shown,
            start,
            bucket_egress(),
            egress as nat,
        );
        lemma_since_bound(before.window, shown, start, bucket_requests());
        lemma_since_bound(before.window, shown, start, bucket_ingress());
        lemma_since_bound(before.window, shown, start, bucket_egress());
    }
}

/// After a request was recorded, every bucket lies in the window.
proof fn lemma_recorded_are_recent(
    buckets: Seq<TrafficBucket>,
    kind: TrafficKind,
    ingress: u64,
    egress: u64,
    second: u64,
)
    ensures
        forall|i: int|
            0 <= i < recorded(buckets, kind, ingress, egress, second).len() ==> (
            #[trigger] recorded(buckets, kind, ingress, egress, second)[i]).second >= window_start(
                second,
            ),
{
    lemma_recent_are_recent(buckets, window_start(second));
    lemma_bucket_index(recent_buckets(buckets, window_start(second)), second, kind);
}

} // verus!
