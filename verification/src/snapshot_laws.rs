//! What snapshots add up to, whether each of them could be saved or not.

use crate::metrics::TrafficSnapshot;
use crate::persistence::{added_since, saved, SnapshotWrite, TrafficCheckpoint};
use crate::state::TrackerSummary;
use vstd::prelude::*;

verus! {

/// Which way traffic goes.
pub enum Direction {
    Ingress,
    Egress,
}

/// The bytes of all traffic in one direction.
pub open spec fn total_in(traffic: TrafficSnapshot, direction: Direction) -> u64 {
    match direction {
        Direction::Ingress => traffic.total_ingress_bytes,
        Direction::Egress => traffic.total_egress_bytes,
    }
}

/// The bytes that count as saved in one direction.
pub open spec fn saved_in(checkpoint: TrafficCheckpoint, direction: Direction) -> u64 {
    match direction {
        Direction::Ingress => checkpoint.ingress_bytes,
        Direction::Egress => checkpoint.egress_bytes,
    }
}

/// The bytes that a snapshot adds in one direction.
pub open spec fn delta_in(write: SnapshotWrite, direction: Direction) -> i64 {
    match direction {
        Direction::Ingress => write.ingress_delta,
        Direction::Egress => write.egress_delta,
    }
}

/// One attempt to save a snapshot, and whether it was written.
pub struct SnapshotAttempt {
    pub day: int,
    pub now: u64,
    pub summary: TrackerSummary,
    pub uptime_seconds: u64,
    pub traffic: TrafficSnapshot,
    pub written: bool,
}

/// The population in a row of the metrics.
pub struct MetricRow {
    pub peers: i64,
    pub seeders: i64,
    pub leechers: i64,
    pub torrents: i64,
    pub completed: i64,
    pub uptime_seconds: i64,
}

/// The row that a snapshot writes.
pub open spec fn metric_row(write: SnapshotWrite) -> MetricRow {
    MetricRow {
        peers: write.peers,
        seeders: write.seeders,
        leechers: write.leechers,
        torrents: write.torrents,
        completed: write.completed,
        uptime_seconds: write.uptime_seconds,
    }
}

/// The history as it is saved: a row of metrics for each minute and the traffic
/// of each day, whose sums are taken to fit the database. Beside it stands the
/// traffic that counts as saved.
#[verifier::ext_equal]
pub struct SavedHistory {
    pub checkpoint: TrafficCheckpoint,
    pub metrics: Map<i64, MetricRow>,
    pub traffic: Map<(int, Direction), int>,
}

impl SavedHistory {
    /// The bytes of a day, none where it has no row.
    pub open spec fn bytes_on(self, day: int, direction: Direction) -> int {
        if self.traffic.contains_key((day, direction)) {
            self.traffic[(day, direction)]
        } else {
            0
        }
    }

    /// What an attempt is to write.
    pub open spec fn planned(self, attempt: SnapshotAttempt) -> SnapshotWrite {
        self.checkpoint.planned(
            attempt.summary,
            attempt.uptime_seconds,
            attempt.traffic,
            attempt.now,
        )
    }

    /// The history after an attempt: the minute's row is replaced and the day's
    /// row added to, both or neither.
    pub open spec fn after(self, attempt: SnapshotAttempt) -> SavedHistory {
        let write = self.planned(attempt);
        let checkpoint = self.checkpoint.finished(attempt.traffic, attempt.written);
        if attempt.written {
            SavedHistory {
                checkpoint,
                metrics: self.metrics.insert(write.recorded_at, metric_row(write)),
                traffic: self.traffic.insert(
                    (attempt.day, Direction::Ingress),
                    self.bytes_on(attempt.day, Direction::Ingress) + write.ingress_delta,
                ).insert(
                    (attempt.day, Direction::Egress),
                    self.bytes_on(attempt.day, Direction::Egress) + write.egress_delta,
                ),
            }
        } else {
            SavedHistory { checkpoint, ..self }
        }
    }

    /// The history after several attempts, one after the other.
    pub open spec fn after_all(self, attempts: Seq<SnapshotAttempt>) -> SavedHistory
        decreases attempts.len(),
    {
        if attempts.len() == 0 {
            self
        } else {
            self.after_all(attempts.drop_last()).after(attempts.last())
        }
    }
}

/// The bytes that the last written attempt before place `end` had seen, or
/// those that counted as saved before all attempts.
pub open spec fn seen_before(
    start: TrafficCheckpoint,
    attempts: Seq<SnapshotAttempt>,
    end: int,
    direction: Direction,
) -> u64
    decreases end,
{
    if end <= 0 {
        saved_in(start, direction)
    } else if attempts[end - 1].written {
        total_in(attempts[end - 1].traffic, direction)
    } else {
        seen_before(start, attempts, end - 1, direction)
    }
}

/// The bytes that the attempt in one place adds: those since the last written
/// attempt before it, and none where it fails.
pub open spec fn added_by(
    start: TrafficCheckpoint,
    attempts: Seq<SnapshotAttempt>,
    place: int,
    direction: Direction,
) -> int {
    if attempts[place].written {
        saved(
            added_since(
                total_in(attempts[place].traffic, direction),
                seen_before(start, attempts, place, direction),
            ),
        )
    } else {
        0
    }
}

/// The bytes that the attempts before place `end` add on some days.
pub open spec fn added_on(
    start: TrafficCheckpoint,
    attempts: Seq<SnapshotAttempt>,
    end: int,
    direction: Direction,
    days: Set<int>,
) -> int
    decreases end,
{
    if end <= 0 {
        0
    } else if days.contains(attempts[end - 1].day) {
        added_on(start, attempts, end - 1, direction, days) + added_by(
            start,
            attempts,
            end - 1,
            direction,
        )
    } else {
        added_on(start, attempts, end - 1, direction, days)
    }
}

/// What was seen before a place depends on the attempts before it alone.
proof fn lemma_seen_before(
    start: TrafficCheckpoint,
    attempts: Seq<SnapshotAttempt>,
    end: int,
    direction: Direction,
)
    requires
        0 <= end < attempts.len(),
    ensures
        seen_before(start, attempts.drop_last(), end, direction) == seen_before(
            start,
            attempts,
            end,
            direction,
        ),
    decreases end,
{
    if end > 0 {
        lemma_seen_before(start, attempts, end - 1, direction);
    }
}

/// What was added before a place depends on the attempts before it alone.
proof fn lemma_added_on(
    start: TrafficCheckpoint,
    attempts: Seq<SnapshotAttempt>,
    end: int,
    direction: Direction,
    days: Set<int>,
)
    requires
        0 <= end < attempts.len(),
    ensures
        added_on(start, attempts.drop_last(), end, direction, days) == added_on(
            start,
            attempts,
            end,
            direction,
            days,
        ),
    decreases end,
{
    if end > 0 {
        lemma_added_on(start, attempts, end - 1, direction, days);
        lemma_seen_before(start, attempts, end - 1, direction);
    }
}

/// Whatever attempts fail, each day's row grows by what the written attempts of
/// that day add: each the bytes since the last written attempt before it. So
/// the bytes of a failed attempt are added by the next that is written.
pub proof fn law_saved_traffic_adds_up(
    start: SavedHistory,
    attempts: Seq<SnapshotAttempt>,
    day: int,
    direction: Direction,
)
    ensures
        start.after_all(attempts).bytes_on(day, direction) == start.bytes_on(day, direction)
            + added_on(start.checkpoint, attempts, attempts.len() as int, direction, set![day]),
        saved_in(start.after_all(attempts).checkpoint, direction) == seen_before(
            start.checkpoint,
            attempts,
            attempts.len() as int,
            direction,
        ),
    decreases attempts.len(),
{
    if attempts.len() > 0 {
        let head = attempts.drop_last();
        let last = attempts.len() - 1;
        law_saved_traffic_adds_up(start, head, day, direction);
        lemma_seen_before(start.checkpoint, attempts, last, direction);
        lemma_added_on(start.checkpoint, attempts, last, direction, set![day]);
        let write = start.after_all(head).planned(attempts[last]);
        assert(attempts[last].written ==> delta_in(write, direction) == added_by(
            start.checkpoint,
            attempts,
            last,
            direction,
        ));
    }
}

/// Where the totals never fall, what the attempts of some days add together is
/// all that the last written one had seen beyond what was saved before: nothing
/// is lost to the failed ones and nothing is added twice.
pub proof fn law_no_traffic_is_lost_or_doubled(
    start: TrafficCheckpoint,
    attempts: Seq<SnapshotAttempt>,
    direction: Direction,
    days: Set<int>,
)
    requires
        forall|i: int| 0 <= i < attempts.len() ==> days.contains((#[trigger] attempts[i]).day),
        forall|i: int|
            0 <= i < attempts.len() ==> saved_in(start, direction) <= total_in(
                (#[trigger] attempts[i]).traffic,
                direction,
            ) <= i64::MAX,
        forall|i: int, j: int|
            0 <= i <= j < attempts.len() ==> total_in((#[trigger] attempts[i]).traffic, direction)
                <= total_in((#[trigger] attempts[j]).traffic, direction),
    ensures
        added_on(start, attempts, attempts.len() as int, direction, days) == seen_before(
            start,
            attempts,
            attempts.len() as int,
            direction,
        ) - saved_in(start, direction),
{
    lemma_no_traffic_is_lost(start, attempts, attempts.len() as int, direction, days);
}

/// Up to any place, what was added is what was seen.
proof fn lemma_no_traffic_is_lost(
    start: TrafficCheckpoint,
    attempts: Seq<SnapshotAttempt>,
    end: int,
    direction: Direction,
    days: Set<int>,
)
    requires
        0 <= end <= attempts.len(),
        forall|i: int| 0 <= i < attempts.len() ==> days.contains((#[trigger] attempts[i]).day),
        forall|i: int|
            0 <= i < attempts.len() ==> saved_in(start, direction) <= total_in(
                (#[trigger] attempts[i]).traffic,
                direction,
            ) <= i64::MAX,
        forall|i: int, j: int|
            0 <= i <= j < attempts.len() ==> total_in((#[trigger] attempts[i]).traffic, direction)
                <= total_in((#[trigger] attempts[j]).traffic, direction),
    ensures
        added_on(start, attempts, end, direction, days) == seen_before(
            start,
            attempts,
            end,
            direction,
        ) - saved_in(start, direction),
        forall|i: int|
            end <= i < attempts.len() ==> seen_before(start, attempts, end, direction) <= total_in(
                (#[trigger] attempts[i]).traffic,
                direction,
            ),
    decreases end,
{
    if end > 0 {
        lemma_no_traffic_is_lost(start, attempts, end - 1, direction, days);
        assert(seen_before(start, attempts, end - 1, direction) <= total_in(
            attempts[end - 1].traffic,
            direction,
        ) <= i64::MAX);
    }
}

/// A failed attempt changes neither a row nor what counts as saved.
pub proof fn law_failed_snapshot_changes_nothing(history: SavedHistory, attempt: SnapshotAttempt)
    requires
        !attempt.written,
    ensures
        history.after(attempt) == history,
{
}

/// A written attempt whose totals are those saved already adds nothing to any
/// day.
pub proof fn law_equal_totals_add_nothing(
    history: SavedHistory,
    attempt: SnapshotAttempt,
    day: int,
    direction: Direction,
)
    requires
        total_in(attempt.traffic, direction) == saved_in(history.checkpoint, direction),
    ensures
        history.after(attempt).bytes_on(day, direction) == history.bytes_on(day, direction),
{
}

/// A written attempt stands under its minute, the clock rounded down, and takes
/// the place of that minute's row. The rows of other minutes stay.
pub proof fn law_minute_row_is_replaced(
    history: SavedHistory,
    first: SnapshotAttempt,
    second: SnapshotAttempt,
)
    requires
        first.now / 60 == second.now / 60,
        second.written,
    ensures
        history.after(first).after(second).metrics == history.metrics.insert(
            saved((second.now / 60 * 60) as nat) as i64,
            metric_row(history.planned(second)),
        ),
{
    assert(history.after(first).after(second).metrics =~= history.metrics.insert(
        saved((second.now / 60 * 60) as nat) as i64,
        metric_row(history.planned(second)),
    ));
}

} // verus!
