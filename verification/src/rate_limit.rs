//! A limit on the requests of each source address.

use crate::address::IpAddress;
use crate::clock::{instant, nanoseconds_since};
use dashmap::DashMap;
use std::time::Instant;
use vstd::prelude::*;

verus! {

/// How many parts one request's token has. The allowance of a minute is handed
/// out at one part per allowed request and nanosecond.
pub const TOKEN_PARTS: u128 = 60_000_000_000;

/// How long a source may be idle before it is forgotten, in nanoseconds.
pub const IDLE_NANOSECONDS: u128 = 300_000_000_000;

/// What a source has left, in parts of a token, and when that was reckoned.
#[derive(Clone, Copy, Debug, Eq, PartialEq)]
pub struct TokenBucket {
    pub parts: u128,
    pub updated_at: u128,
}

/// The parts in a full bucket.
pub open spec fn full_parts(capacity: u32) -> u128 {
    (capacity * TOKEN_PARTS) as u128
}

/// The nanoseconds from `earlier` to `later`, none where time went backwards.
pub open spec fn nanoseconds_between(earlier: u128, later: u128) -> nat {
    if later >= earlier {
        (later - earlier) as nat
    } else {
        0
    }
}

impl TokenBucket {
    /// The parts at `now`: what has come in since, up to a full bucket.
    pub open spec fn parts_at(self, capacity: u32, now: u128) -> nat {
        let refilled = self.parts + nanoseconds_between(self.updated_at, now) * capacity;
        if refilled <= full_parts(capacity) {
            refilled as nat
        } else {
            full_parts(capacity) as nat
        }
    }

    /// The bucket after a request at `now`, which takes one token where there
    /// is a whole one.
    pub open spec fn checked(self, capacity: u32, now: u128) -> TokenBucket {
        let parts = self.parts_at(capacity, now);
        TokenBucket {
            parts: if parts >= TOKEN_PARTS {
                (parts - TOKEN_PARTS) as u128
            } else {
                parts as u128
            },
            updated_at: now,
        }
    }

    /// Whether a request at `now` is allowed.
    pub open spec fn allows(self, capacity: u32, now: u128) -> bool {
        self.parts_at(capacity, now) >= TOKEN_PARTS
    }

    /// Whether the source was active in the last five minutes.
    pub open spec fn is_live(self, now: u128) -> bool {
        nanoseconds_between(self.updated_at, now) < IDLE_NANOSECONDS
    }

    /// Whether the source was active in the last five minutes.
    fn live(&self, now: u128) -> (live: bool)
        ensures
            live == self.is_live(now),
    {
        now < self.updated_at || now - self.updated_at < IDLE_NANOSECONDS
    }
}

/// The sources' buckets, and how many requests a minute allows.
#[verifier::ext_equal]
pub struct RateModel {
    pub capacity: u32,
    pub buckets: Map<IpAddress, TokenBucket>,
}

impl RateModel {
    /// A source's bucket at `now`: a new source starts with a full one.
    pub open spec fn bucket(self, ip: IpAddress, now: u128) -> TokenBucket {
        if self.buckets.contains_key(ip) {
            self.buckets[ip]
        } else {
            TokenBucket { parts: full_parts(self.capacity), updated_at: now }
        }
    }

    /// Whether a request from `ip` at `now` is allowed.
    pub open spec fn allows(self, ip: IpAddress, now: u128) -> bool {
        self.bucket(ip, now).allows(self.capacity, now)
    }

    /// The buckets after a request from `ip` at `now`.
    pub open spec fn checked(self, ip: IpAddress, now: u128) -> RateModel {
        RateModel {
            buckets: self.buckets.insert(ip, self.bucket(ip, now).checked(self.capacity, now)),
            ..self
        }
    }

    /// The buckets after several requests from `ip` at `now`.
    pub open spec fn checked_often(self, ip: IpAddress, now: u128, count: nat) -> RateModel
        decreases count,
    {
        if count == 0 {
            self
        } else {
            self.checked_often(ip, now, (count - 1) as nat).checked(ip, now)
        }
    }

    /// The buckets after requests from `ip` at several times, one after the other.
    pub open spec fn checked_at_times(self, ip: IpAddress, times: Seq<u128>) -> RateModel
        decreases times.len(),
    {
        if times.len() == 0 {
            self
        } else {
            self.checked_at_times(ip, times.drop_last()).checked(ip, times.last())
        }
    }

    /// How many of the requests from `ip` at several times are allowed.
    pub open spec fn allowed_among(self, ip: IpAddress, times: Seq<u128>) -> nat
        decreases times.len(),
    {
        if times.len() == 0 {
            0
        } else {
            self.allowed_among(ip, times.drop_last()) + if self.checked_at_times(
                ip,
                times.drop_last(),
            ).allows(ip, times.last()) {
                1nat
            } else {
                0nat
            }
        }
    }

    /// The buckets without the idle sources.
    pub open spec fn without_idle(self, now: u128) -> RateModel {
        RateModel {
            buckets: Map::new(
                |ip: IpAddress| self.buckets.contains_key(ip) && self.buckets[ip].is_live(now),
                |ip: IpAddress| self.buckets[ip],
            ),
            ..self
        }
    }

    /// Whether no bucket is overfull.
    pub open spec fn is_bounded(self) -> bool {
        &&& self.capacity >= 1
        &&& forall|ip: IpAddress| #[trigger]
            self.buckets.contains_key(ip) ==> self.buckets[ip].parts <= full_parts(self.capacity)
    }
}

/// How a source is known in the map: its family, and its octets with zeros
/// behind them.
type SourceKey = (bool, [u8; 16]);

/// The key of a source.
pub open spec fn source_key(ip: IpAddress) -> SourceKey {
    match ip {
        IpAddress::V4(octets) => (
            false,
            [
                octets[0],
                octets[1],
                octets[2],
                octets[3],
                0,
                0,
                0,
                0,
                0,
                0,
                0,
                0,
                0,
                0,
                0,
                0,
            ],
        ),
        IpAddress::V6(octets) => (true, octets),
    }
}

/// Different sources have different keys.
proof fn lemma_source_key(left: IpAddress, right: IpAddress)
    ensures
        source_key(left) == source_key(right) <==> left == right,
{
    match (left, right) {
        (IpAddress::V4(a), IpAddress::V4(b)) => {
            if source_key(left) == source_key(right) {
                let x = source_key(left).1;
                let y = source_key(right).1;
                assert(x@[0] == a@[0] && x@[1] == a@[1] && x@[2] == a@[2] && x@[3] == a@[3]);
                assert(y@[0] == b@[0] && y@[1] == b@[1] && y@[2] == b@[2] && y@[3] == b@[3]);
                assert(a =~= b);
            }
        },
        _ => {},
    }
}

/// The buckets that a `dashmap::DashMap` holds, by source.
pub uninterp spec fn buckets_in(map: DashMap<SourceKey, TokenBucket>) -> Map<SourceKey, TokenBucket>;

/// `dashmap::DashMap::new`: the map holds nothing.
#[verifier::external_body]
fn empty_map() -> (map: DashMap<SourceKey, TokenBucket>)
    ensures
        buckets_in(map).dom() == Set::<SourceKey>::empty(),
{
    DashMap::new()
}

/// `dashmap::DashMap::get`: the value of the key, where it is in the map.
#[verifier::external_body]
fn get_bucket(map: &DashMap<SourceKey, TokenBucket>, key: &SourceKey) -> (bucket: Option<
    TokenBucket,
>)
    ensures
        bucket == (if buckets_in(*map).contains_key(*key) {
            Some(buckets_in(*map)[*key])
        } else {
            None
        }),
{
    map.get(key).map(|bucket| *bucket)
}

/// `dashmap::DashMap::insert`: the key has the value, in the place of any that
/// it had.
#[verifier::external_body]
fn insert_bucket(map: &mut DashMap<SourceKey, TokenBucket>, key: SourceKey, bucket: TokenBucket)
    ensures
        buckets_in(*final(map)) == buckets_in(*old(map)).insert(key, bucket),
{
    map.insert(key, bucket);
}

/// `dashmap::DashMap::retain`: the keys whose buckets are live at `now` stay,
/// with their values, and no others.
#[verifier::external_body]
fn retain_live(map: &mut DashMap<SourceKey, TokenBucket>, now: u128)
    ensures
        buckets_in(*final(map)) == buckets_in(*old(map)).restrict(
            Set::new(|key: SourceKey| buckets_in(*old(map))[key].is_live(now)),
        ),
{
    map.retain(|_, bucket| bucket.live(now));
}

/// The requests that each source may make.
pub struct RateLimiter {
    buckets: DashMap<SourceKey, TokenBucket>,
    capacity: u32,
    started_at: Instant,
}

impl View for RateLimiter {
    type V = RateModel;

    closed spec fn view(&self) -> RateModel {
        RateModel {
            capacity: self.capacity,
            buckets: Map::new(
                |ip: IpAddress| buckets_in(self.buckets).contains_key(source_key(ip)),
                |ip: IpAddress| buckets_in(self.buckets)[source_key(ip)],
            ),
        }
    }
}

impl RateLimiter {
    /// A limit of so many requests per minute and source, but at least one.
    pub fn per_minute(limit: u32) -> (limiter: Self)
        ensures
            limiter@.is_bounded(),
            limiter@.buckets == Map::<IpAddress, TokenBucket>::empty(),
            limiter@.capacity == if limit >= 1 {
                limit
            } else {
                1
            },
    {
        let limiter = RateLimiter {
            buckets: empty_map(),
            capacity: if limit >= 1 {
                limit
            } else {
                1
            },
            started_at: instant(),
        };
        assert(limiter@.buckets =~= Map::<IpAddress, TokenBucket>::empty());
        limiter
    }

    /// Whether a request from `ip` is allowed now, by the clock.
    pub fn check(&mut self, ip: IpAddress) -> (allowed: bool)
        requires
            old(self)@.is_bounded(),
        ensures
            final(self)@.is_bounded(),
            exists|now: u128|
                allowed == #[trigger] old(self)@.allows(ip, now) && final(self)@ == old(
                    self)@.checked(ip, now),
    {
        let now: u128 = nanoseconds_since(&self.started_at);
        self.check_at(ip, now)
    }

    /// Whether a request from `ip` is allowed at `now`, in nanoseconds since the
    /// limiter was made.
    pub fn check_at(&mut self, ip: IpAddress, now: u128) -> (allowed: bool)
        requires
            old(self)@.is_bounded(),
        ensures
            final(self)@.is_bounded(),
            allowed == old(self)@.allows(ip, now),
            final(self)@ == old(self)@.checked(ip, now),
    {
        let ghost before = self@;
        let capacity: u32 = self.capacity;
        assert(0 <= capacity * TOKEN_PARTS <= 0xffff_ffff * 60_000_000_000) by (nonlinear_arith)
            requires
                0 <= capacity <= 0xffff_ffff,
                TOKEN_PARTS == 60_000_000_000,
        ;
        let full: u128 = capacity as u128 * TOKEN_PARTS;
        let key: SourceKey = match ip {
            IpAddress::V4(octets) => (
                false,
                [
                    octets[0],
                    octets[1],
                    octets[2],
                    octets[3],
                    0,
                    0,
                    0,
                    0,
                    0,
                    0,
                    0,
                    0,
                    0,
                    0,
                    0,
                    0,
                ],
            ),
            IpAddress::V6(octets) => (true, octets),
        };
        assert(key == source_key(ip));
        let bucket: TokenBucket = match get_bucket(&self.buckets, &key) {
            Some(bucket) => bucket,
            None => TokenBucket { parts: full, updated_at: now },
        };
        assert(bucket == before.bucket(ip, now));
        let elapsed: u128 = now.saturating_sub(bucket.updated_at);
        assert(elapsed == nanoseconds_between(bucket.updated_at, now));
        let parts: u128 = if elapsed >= TOKEN_PARTS {
            assert(elapsed * capacity >= TOKEN_PARTS * capacity) by (nonlinear_arith)
                requires
                    elapsed >= TOKEN_PARTS,
                    capacity >= 0,
            ;
            full
        } else {
            assert(elapsed * capacity <= TOKEN_PARTS * capacity) by (nonlinear_arith)
                requires
                    elapsed <= TOKEN_PARTS,
                    capacity >= 0,
            ;
            let refilled: u128 = bucket.parts + elapsed * capacity as u128;
            if refilled <= full {
                refilled
            } else {
                full
            }
        };
        assert(TOKEN_PARTS * capacity == capacity * TOKEN_PARTS) by (nonlinear_arith);
        assert(parts == bucket.parts_at(capacity, now));
        let allowed: bool = parts >= TOKEN_PARTS;
        let left: u128 = if allowed {
            parts - TOKEN_PARTS
        } else {
            parts
        };
        insert_bucket(&mut self.buckets, key, TokenBucket { parts: left, updated_at: now });
        proof {
            assert forall|other: IpAddress| self@.buckets.contains_key(other) == before.checked(
                ip,
                now,
            ).buckets.contains_key(other) by {
                lemma_source_key(ip, other);
            }
            assert forall|other: IpAddress| self@.buckets.contains_key(other) implies
                self@.buckets[other] == before.checked(ip, now).buckets[other] by {
                lemma_source_key(ip, other);
            }
            assert(self@ =~= before.checked(ip, now));
        }
        allowed
    }

    /// Forgets the sources that were idle for five minutes, by the clock.
    pub fn remove_idle(&mut self)
        requires
            old(self)@.is_bounded(),
        ensures
            final(self)@.is_bounded(),
            exists|now: u128| final(self)@ == #[trigger] old(self)@.without_idle(now),
    {
        let now: u128 = nanoseconds_since(&self.started_at);
        self.remove_idle_at(now);
    }

    /// Forgets the sources that were idle for five minutes at `now`.
    pub fn remove_idle_at(&mut self, now: u128)
        requires
            old(self)@.is_bounded(),
        ensures
            final(self)@.is_bounded(),
            final(self)@ == old(self)@.without_idle(now),
    {
        retain_live(&mut self.buckets, now);
        assert(self@ =~= old(self)@.without_idle(now));
    }
}

/// A request from one source leaves what every other source has untouched.
pub proof fn law_sources_are_independent(
    model: RateModel,
    ip: IpAddress,
    other: IpAddress,
    now: u128,
    later: u128,
)
    requires
        ip != other,
    ensures
        model.checked(ip, now).bucket(other, later) == model.bucket(other, later),
        model.checked(ip, now).allows(other, later) == model.allows(other, later),
{
}

/// A source that was unknown, or idle for a minute, is allowed as many requests
/// at once as a minute allows, and no more.
pub proof fn law_burst_is_limited(model: RateModel, ip: IpAddress, now: u128, count: nat)
    requires
        model.is_bounded(),
        model.buckets.contains_key(ip) ==> nanoseconds_between(model.buckets[ip].updated_at, now)
            >= TOKEN_PARTS,
    ensures
        model.checked_often(ip, now, count).allows(ip, now) <==> count < model.capacity,
{
    lemma_burst(model, ip, now, count);
}

/// However a source spreads its requests, no more are allowed than a minute's
/// allowance and the part of it that came in between the first and the last.
pub proof fn law_rate_is_limited(model: RateModel, ip: IpAddress, times: Seq<u128>)
    requires
        model.is_bounded(),
        times.len() > 0,
        forall|i: int, j: int| 0 <= i <= j < times.len() ==> times[i] <= times[j],
    ensures
        model.allowed_among(ip, times) * TOKEN_PARTS <= model.capacity * TOKEN_PARTS
            + model.capacity * (times.last() - times.first()),
{
    lemma_spent(model, ip, times);
}

/// What was spent and what is left came from a full bucket and the time since.
proof fn lemma_spent(model: RateModel, ip: IpAddress, times: Seq<u128>)
    requires
        model.is_bounded(),
        times.len() > 0,
        forall|i: int, j: int| 0 <= i <= j < times.len() ==> times[i] <= times[j],
    ensures
        ({
            let after = model.checked_at_times(ip, times);
            &&& after.capacity == model.capacity
            &&& after.buckets.contains_key(ip)
            &&& after.buckets[ip].updated_at == times.last()
            &&& after.buckets[ip].parts + model.allowed_among(ip, times) * TOKEN_PARTS
                <= model.capacity * TOKEN_PARTS + model.capacity * (times.last() - times.first())
        }),
    decreases times.len(),
{
    let capacity = model.capacity;
    assert(0 <= capacity * TOKEN_PARTS <= 0xffff_ffff * 60_000_000_000) by (nonlinear_arith)
        requires
            0 <= capacity <= 0xffff_ffff,
            TOKEN_PARTS == 60_000_000_000,
    ;
    let head = times.drop_last();
    let before = model.checked_at_times(ip, head);
    let now = times.last();
    let granted = model.allowed_among(ip, head);
    let allowed: int = if before.allows(ip, now) {
        1
    } else {
        0
    };
    assert((granted + allowed) * TOKEN_PARTS == granted * TOKEN_PARTS + allowed * TOKEN_PARTS)
        by (nonlinear_arith);
    assert(allowed * TOKEN_PARTS == if before.allows(ip, now) {
        TOKEN_PARTS as int
    } else {
        0
    }) by (nonlinear_arith)
        requires
            allowed == if before.allows(ip, now) {
                1int
            } else {
                0int
            },
    ;
    if times.len() == 1 {
        assert(granted * TOKEN_PARTS == 0) by (nonlinear_arith)
            requires
                granted == 0,
        ;
        assert(capacity * (times.last() - times.first()) == 0) by (nonlinear_arith)
            requires
                times.last() == times.first(),
        ;
    } else {
        assert forall|i: int, j: int| 0 <= i <= j < head.len() implies head[i] <= head[j] by {
            assert(times[i] <= times[j]);
        }
        lemma_spent(model, ip, head);
        assert(head.first() == times.first());
        assert(head.last() == times[times.len() - 2]);
        assert(head.last() <= now);
        assert(nanoseconds_between(head.last(), now) * capacity + capacity * (head.last()
            - times.first()) == capacity * (now - times.first())) by (nonlinear_arith)
            requires
                nanoseconds_between(head.last(), now) == now - head.last(),
        ;
    }
}

/// What a burst leaves in the bucket.
proof fn lemma_burst(model: RateModel, ip: IpAddress, now: u128, count: nat)
    requires
        model.is_bounded(),
        model.buckets.contains_key(ip) ==> nanoseconds_between(model.buckets[ip].updated_at, now)
            >= TOKEN_PARTS,
    ensures
        ({
            let after = model.checked_often(ip, now, count);
            let left: int = if count < model.capacity {
                model.capacity - count
            } else {
                0
            };
            &&& after.capacity == model.capacity
            &&& after.bucket(ip, now).parts_at(model.capacity, now) == left * TOKEN_PARTS
        }),
    decreases count,
{
    let capacity = model.capacity;
    assert(0 <= capacity * TOKEN_PARTS <= 0xffff_ffff * 60_000_000_000) by (nonlinear_arith)
        requires
            0 <= capacity <= 0xffff_ffff,
            TOKEN_PARTS == 60_000_000_000,
    ;
    if count == 0 {
        if model.buckets.contains_key(ip) {
            let elapsed = nanoseconds_between(model.buckets[ip].updated_at, now);
            assert(elapsed * capacity >= capacity * TOKEN_PARTS) by (nonlinear_arith)
                requires
                    elapsed >= TOKEN_PARTS,
                    capacity >= 0,
            ;
        } else {
            assert(0 * capacity == 0);
        }
    } else {
        lemma_burst(model, ip, now, (count - 1) as nat);
        let before = model.checked_often(ip, now, (count - 1) as nat);
        let left_before: int = if count - 1 < capacity {
            capacity - (count - 1)
        } else {
            0
        };
        let left: int = if count < capacity {
            capacity - count
        } else {
            0
        };
        let after = before.checked(ip, now);
        assert(left_before * TOKEN_PARTS <= capacity * TOKEN_PARTS) by (nonlinear_arith)
            requires
                0 <= left_before <= capacity,
        ;
        if left_before >= 1 {
            assert(left_before * TOKEN_PARTS == left * TOKEN_PARTS + TOKEN_PARTS)
                by (nonlinear_arith)
                requires
                    left_before == left + 1,
            ;
            assert(0 <= left * TOKEN_PARTS) by (nonlinear_arith)
                requires
                    0 <= left,
            ;
        } else {
            assert(left_before * TOKEN_PARTS == 0) by (nonlinear_arith)
                requires
                    left_before == 0,
            ;
            assert(left * TOKEN_PARTS == 0) by (nonlinear_arith)
                requires
                    left == 0,
            ;
        }
        assert(after.bucket(ip, now).updated_at == now);
        assert(nanoseconds_between(now, now) * capacity == 0) by (nonlinear_arith)
            requires
                nanoseconds_between(now, now) == 0,
        ;
    }
}

/// Forgetting an idle source gives it nothing that it would not have had, then
/// or later: its bucket was full again. Once it has asked again, its bucket is
/// the same as if it had never been forgotten.
pub proof fn law_forgetting_idle_sources_is_unseen(
    model: RateModel,
    ip: IpAddress,
    now: u128,
    later: u128,
)
    requires
        model.is_bounded(),
        now <= later,
    ensures
        model.without_idle(now).allows(ip, later) == model.allows(ip, later),
        model.without_idle(now).checked(ip, later).buckets[ip] == model.checked(
            ip,
            later,
        ).buckets[ip],
{
    let capacity = model.capacity;
    assert(0 <= capacity * TOKEN_PARTS <= 0xffff_ffff * 60_000_000_000) by (nonlinear_arith)
        requires
            0 <= capacity <= 0xffff_ffff,
            TOKEN_PARTS == 60_000_000_000,
    ;
    if model.buckets.contains_key(ip) && !model.buckets[ip].is_live(now) {
        let elapsed = nanoseconds_between(model.buckets[ip].updated_at, later);
        assert(elapsed * capacity >= capacity * TOKEN_PARTS) by (nonlinear_arith)
            requires
                elapsed >= TOKEN_PARTS,
                capacity >= 0,
        ;
        assert(nanoseconds_between(later, later) * capacity == 0) by (nonlinear_arith)
            requires
                nanoseconds_between(later, later) == 0,
        ;
    }
}

/// A source that was unknown, or idle for a minute, is allowed as many requests
/// as a minute allows, however it spreads them.
pub proof fn law_first_requests_are_allowed(model: RateModel, ip: IpAddress, times: Seq<u128>)
    requires
        model.is_bounded(),
        times.len() <= model.capacity,
        forall|i: int, j: int| 0 <= i <= j < times.len() ==> times[i] <= times[j],
        times.len() > 0 && model.buckets.contains_key(ip) ==> nanoseconds_between(
            model.buckets[ip].updated_at,
            times[0],
        ) >= TOKEN_PARTS,
    ensures
        model.allowed_among(ip, times) == times.len(),
{
    if times.len() > 0 {
        lemma_first_requests(model, ip, times);
    }
}

/// What the first requests leave in the bucket.
proof fn lemma_first_requests(model: RateModel, ip: IpAddress, times: Seq<u128>)
    requires
        model.is_bounded(),
        0 < times.len() <= model.capacity,
        forall|i: int, j: int| 0 <= i <= j < times.len() ==> times[i] <= times[j],
        model.buckets.contains_key(ip) ==> nanoseconds_between(
            model.buckets[ip].updated_at,
            times[0],
        ) >= TOKEN_PARTS,
    ensures
        ({
            let after = model.checked_at_times(ip, times);
            &&& after.capacity == model.capacity
            &&& after.buckets.contains_key(ip)
            &&& after.buckets[ip].parts >= (model.capacity - times.len()) * TOKEN_PARTS
            &&& model.allowed_among(ip, times) == times.len()
        }),
    decreases times.len(),
{
    let capacity = model.capacity;
    assert(0 <= capacity * TOKEN_PARTS <= 0xffff_ffff * 60_000_000_000) by (nonlinear_arith)
        requires
            0 <= capacity <= 0xffff_ffff,
            TOKEN_PARTS == 60_000_000_000,
    ;
    let head = times.drop_last();
    let before = model.checked_at_times(ip, head);
    let now = times.last();
    let left = capacity - head.len();
    let elapsed = nanoseconds_between(before.bucket(ip, now).updated_at, now);
    if times.len() == 1 {
        assert(elapsed * capacity >= 0) by (nonlinear_arith)
            requires
                elapsed >= 0,
                capacity >= 0,
        ;
        if model.buckets.contains_key(ip) {
            assert(elapsed * capacity >= capacity * TOKEN_PARTS) by (nonlinear_arith)
                requires
                    elapsed >= TOKEN_PARTS,
                    capacity >= 0,
            ;
        }
    } else {
        assert forall|i: int, j: int| 0 <= i <= j < head.len() implies head[i] <= head[j] by {
            assert(times[i] <= times[j]);
        }
        assert(head[0] == times[0]);
        lemma_first_requests(model, ip, head);
        assert(elapsed * capacity >= 0) by (nonlinear_arith)
            requires
                elapsed >= 0,
                capacity >= 0,
        ;
    }
    assert(left * TOKEN_PARTS <= capacity * TOKEN_PARTS) by (nonlinear_arith)
        requires
            left <= capacity,
    ;
    assert(left * TOKEN_PARTS == (capacity - times.len()) * TOKEN_PARTS + TOKEN_PARTS)
        by (nonlinear_arith)
        requires
            left == capacity - times.len() + 1,
    ;
    assert((capacity - times.len()) * TOKEN_PARTS >= 0) by (nonlinear_arith)
        requires
            capacity - times.len() >= 0,
    ;
    assert(before.bucket(ip, now).parts_at(capacity, now) >= left * TOKEN_PARTS);
    assert(before.allows(ip, now));
    assert(model.allowed_among(ip, head) == head.len());
    assert(model.checked_at_times(ip, times) == before.checked(ip, now));
}

/// A minute's allowance comes in evenly: a source that is known is allowed where
/// what it has left, counted in shares of 60 thousand million for a request, and
/// a share for each nanosecond and each request a minute since, make up one
/// request. A source that is not known is allowed.
pub proof fn law_allowance_comes_in_evenly(model: RateModel, ip: IpAddress, now: u128)
    requires
        model.is_bounded(),
    ensures
        !model.buckets.contains_key(ip) ==> model.allows(ip, now),
        model.buckets.contains_key(ip) && now >= model.buckets[ip].updated_at ==> (model.allows(
            ip,
            now,
        ) <==> model.buckets[ip].parts + (now - model.buckets[ip].updated_at) * model.capacity
            >= 60_000_000_000),
{
    let capacity = model.capacity;
    assert(60_000_000_000 <= capacity * TOKEN_PARTS <= 0xffff_ffff * 60_000_000_000)
        by (nonlinear_arith)
        requires
            1 <= capacity <= 0xffff_ffff,
            TOKEN_PARTS == 60_000_000_000,
    ;
    if !model.buckets.contains_key(ip) {
        assert(0 * capacity == 0);
    }
}

/// A request that is allowed costs one, and one that is refused costs nothing:
/// the source is at any later time as if it had not been made.
pub proof fn law_only_allowed_requests_cost(
    model: RateModel,
    ip: IpAddress,
    now: u128,
    later: u128,
)
    requires
        model.is_bounded(),
        model.buckets.contains_key(ip) ==> model.buckets[ip].updated_at <= now,
        now <= later,
    ensures
        !model.allows(ip, now) ==> model.checked(ip, now).allows(ip, later) == model.allows(
            ip,
            later,
        ),
        model.allows(ip, now) ==> (model.checked(ip, now).allows(ip, later) <==> model.bucket(
            ip,
            now,
        ).parts_at(model.capacity, now) + (later - now) * model.capacity >= 120_000_000_000),
{
    let capacity = model.capacity;
    assert(60_000_000_000 <= capacity * TOKEN_PARTS <= 0xffff_ffff * 60_000_000_000)
        by (nonlinear_arith)
        requires
            1 <= capacity <= 0xffff_ffff,
            TOKEN_PARTS == 60_000_000_000,
    ;
    law_allowance_comes_in_evenly(model, ip, now);
    law_allowance_comes_in_evenly(model, ip, later);
    let after = model.checked(ip, now);
    lemma_stays_bounded(model, ip, now);
    law_allowance_comes_in_evenly(after, ip, later);
    if model.buckets.contains_key(ip) {
        let then = model.buckets[ip].updated_at;
        assert((now - then) * capacity + (later - now) * capacity == (later - then) * capacity)
            by (nonlinear_arith);
    }
}

/// What is left of a source's allowance never exceeds a minute's.
proof fn lemma_stays_bounded(model: RateModel, ip: IpAddress, now: u128)
    requires
        model.is_bounded(),
    ensures
        model.checked(ip, now).is_bounded(),
{
    let capacity = model.capacity;
    assert(60_000_000_000 <= capacity * TOKEN_PARTS <= 0xffff_ffff * 60_000_000_000)
        by (nonlinear_arith)
        requires
            1 <= capacity <= 0xffff_ffff,
            TOKEN_PARTS == 60_000_000_000,
    ;
    let elapsed = nanoseconds_between(model.bucket(ip, now).updated_at, now);
    assert(elapsed * capacity >= 0) by (nonlinear_arith)
        requires
            elapsed >= 0,
            capacity >= 0,
    ;
}

/// A source that is allowed a request and leaves a minute's share of one between
/// its requests is allowed all of them.
pub proof fn law_spaced_requests_are_allowed(model: RateModel, ip: IpAddress, times: Seq<u128>)
    requires
        model.is_bounded(),
        times.len() > 0,
        model.allows(ip, times[0]),
        forall|i: int|
            0 < i < times.len() ==> times[i - 1] <= #[trigger] times[i] && (times[i] - times[i - 1])
                * model.capacity >= 60_000_000_000,
    ensures
        model.allowed_among(ip, times) == times.len(),
{
    lemma_spaced(model, ip, times);
}

/// What spaced requests leave.
proof fn lemma_spaced(model: RateModel, ip: IpAddress, times: Seq<u128>)
    requires
        model.is_bounded(),
        times.len() > 0,
        model.allows(ip, times[0]),
        forall|i: int|
            0 < i < times.len() ==> times[i - 1] <= #[trigger] times[i] && (times[i] - times[i - 1])
                * model.capacity >= 60_000_000_000,
    ensures
        model.allowed_among(ip, times) == times.len(),
        model.checked_at_times(ip, times).is_bounded(),
        model.checked_at_times(ip, times).capacity == model.capacity,
        model.checked_at_times(ip, times).buckets.contains_key(ip),
        model.checked_at_times(ip, times).buckets[ip].updated_at == times.last(),
    decreases times.len(),
{
    let head = times.drop_last();
    let before = model.checked_at_times(ip, head);
    if times.len() == 1 {
        assert(model.allowed_among(ip, head) == 0);
        assert(before == model);
        lemma_stays_bounded(model, ip, times.last());
    } else {
        assert(head[0] == times[0]);
        assert forall|i: int| 0 < i < head.len() implies head[i - 1] <= #[trigger] head[i] && (
        head[i] - head[i - 1]) * model.capacity >= 60_000_000_000 by {
            assert(times[i - 1] <= times[i]);
        }
        lemma_spaced(model, ip, head);
        let last = times.len() - 1;
        assert(times[last - 1] <= times[last]);
        assert(head.last() == times[last - 1]);
        law_allowance_comes_in_evenly(before, ip, times.last());
        lemma_stays_bounded(before, ip, times.last());
    }
}

/// A source is forgotten where it was not heard of for 300 seconds, and kept as
/// it is otherwise.
pub proof fn law_idle_sources_are_forgotten(model: RateModel, ip: IpAddress, now: u128)
    requires
        model.buckets.contains_key(ip),
        model.buckets[ip].updated_at <= now,
    ensures
        model.without_idle(now).buckets.contains_key(ip) <==> now - model.buckets[ip].updated_at
            < 300_000_000_000,
        model.without_idle(now).buckets.contains_key(ip) ==> model.without_idle(now).buckets[ip]
            == model.buckets[ip],
        model.without_idle(now).capacity == model.capacity,
{
}

} // verus!
