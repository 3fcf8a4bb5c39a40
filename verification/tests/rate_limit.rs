use hive_tracker::address::IpAddress;
use hive_tracker::rate_limit::RateLimiter;

const SECOND: u128 = 1_000_000_000;

#[test]
fn a_burst_is_limited_per_source() {
    let mut limiter = RateLimiter::per_minute(2);
    let first = IpAddress::V4([192, 0, 2, 1]);
    let second = IpAddress::V4([192, 0, 2, 2]);
    assert!(limiter.check_at(first, 0));
    assert!(limiter.check_at(first, 0));
    assert!(!limiter.check_at(first, 0));
    assert!(limiter.check_at(second, 0));
}

#[test]
fn tokens_return_with_time() {
    let mut limiter = RateLimiter::per_minute(2);
    let source = IpAddress::V6([7; 16]);
    assert!(limiter.check_at(source, 0));
    assert!(limiter.check_at(source, 0));
    assert!(!limiter.check_at(source, 29 * SECOND));
    assert!(limiter.check_at(source, 31 * SECOND));
    assert!(!limiter.check_at(source, 31 * SECOND));
}

#[test]
fn no_more_tokens_are_kept_than_the_limit() {
    let mut limiter = RateLimiter::per_minute(1);
    let source = IpAddress::V4([1, 1, 1, 1]);
    assert!(limiter.check_at(source, 0));
    assert!(limiter.check_at(source, 3600 * SECOND));
    assert!(!limiter.check_at(source, 3600 * SECOND));
}

#[test]
fn a_limit_of_none_allows_one() {
    let mut limiter = RateLimiter::per_minute(0);
    let source = IpAddress::V4([1, 1, 1, 1]);
    assert!(limiter.check(source));
    assert!(!limiter.check(source));
}

#[test]
fn forgetting_idle_sources_is_unseen() {
    let mut limiter = RateLimiter::per_minute(1);
    let source = IpAddress::V4([1, 1, 1, 1]);
    assert!(limiter.check_at(source, 0));
    limiter.remove_idle_at(SECOND);
    assert!(!limiter.check_at(source, SECOND));
    limiter.remove_idle_at(1000 * SECOND);
    assert!(limiter.check_at(source, 1000 * SECOND));
    limiter.remove_idle();
}

#[test]
fn families_are_kept_apart() {
    let mut limiter = RateLimiter::per_minute(1);
    assert!(limiter.check_at(IpAddress::V4([1, 2, 3, 4]), 0));
    let mut octets = [0; 16];
    octets[..4].copy_from_slice(&[1, 2, 3, 4]);
    assert!(limiter.check_at(IpAddress::V6(octets), 0));
}

#[test]
fn steady_requests_get_no_more_than_the_allowance() {
    let mut limiter = RateLimiter::per_minute(2);
    let source = IpAddress::V4([1, 1, 1, 1]);
    let allowed = (0..=120)
        .filter(|second| limiter.check_at(source, *second * SECOND))
        .count();
    assert_eq!(allowed, 6);
}

#[test]
fn the_first_requests_are_allowed_however_they_are_spread() {
    let mut limiter = RateLimiter::per_minute(4);
    let source = IpAddress::V4([9, 9, 9, 9]);
    for moment in [5, 5, 6, 7] {
        assert!(limiter.check_at(source, moment));
    }
    assert!(!limiter.check_at(source, 7));
}

#[test]
fn a_forgotten_source_is_treated_as_if_it_was_not() {
    let mut kept = RateLimiter::per_minute(1);
    let mut forgetful = RateLimiter::per_minute(1);
    let source = IpAddress::V4([9, 9, 9, 9]);
    assert!(kept.check_at(source, 0) && forgetful.check_at(source, 0));
    forgetful.remove_idle_at(400 * SECOND);
    for second in [500, 510, 570] {
        assert_eq!(
            kept.check_at(source, second * SECOND),
            forgetful.check_at(source, second * SECOND)
        );
    }
}
