use std::time::{Duration, Instant, SystemTime};
use whorl::futures::{whole_millis, ClockWentBack, Poll, Sleep};

#[test]
fn whole_milliseconds_of_a_time_span() {
    assert_eq!(whole_millis(0, 0), 0);
    assert_eq!(whole_millis(0, 999_999), 0);
    assert_eq!(whole_millis(0, 1_000_000), 1);
    assert_eq!(whole_millis(1, 999_999_999), 1_999);
    assert_eq!(whole_millis(11, 500_000_000), 11_500);
    assert_eq!(whole_millis(0, u32::MAX), 4_294);
    assert_eq!(whole_millis(u64::MAX, 999_999_999), 18_446_744_073_709_551_615_999);
}

#[test]
fn sleep_is_over_exactly_when_enough_time_has_passed() {
    let sleep = Sleep::new(2000);
    assert_eq!(sleep.poll_after(0), Poll::Pending);
    assert_eq!(sleep.poll_after(1999), Poll::Pending);
    assert_eq!(sleep.poll_after(2000), Poll::Ready);
    assert_eq!(sleep.poll_after(2001), Poll::Ready);
    assert_eq!(sleep.poll_after(u128::MAX), Poll::Ready);
}

#[test]
fn sleep_never_ends_early_and_stays_over() {
    let sleep = Sleep::new(1_500);
    assert_eq!(sleep.poll_after(whole_millis(1, 499_999_999)), Poll::Pending);
    assert_eq!(sleep.poll_after(whole_millis(1, 500_000_000)), Poll::Ready);
    assert_eq!(sleep.poll_after(whole_millis(1, 500_000_001)), Poll::Ready);
    assert_eq!(sleep.poll_after(whole_millis(2, 0)), Poll::Ready);
}

#[test]
fn sleep_of_no_time_is_over_at_once() {
    assert_eq!(Sleep::new(0).poll(), Ok::<Poll, ClockWentBack>(Poll::Ready));
}

#[test]
fn sleep_longer_than_any_time_span_is_never_over() {
    assert_eq!(Sleep::new(u128::MAX).poll(), Ok(Poll::Pending));
    assert_eq!(Sleep::new(18_446_744_073_709_552_000_000).poll(), Ok(Poll::Pending));
}

#[test]
fn sleep_goes_by_the_clock() {
    let begin = Instant::now();
    let sleep = Sleep::new(40);
    let long = Sleep::new(3_600_000);
    assert_eq!(sleep.poll(), Ok(Poll::Pending));
    while sleep.poll() == Ok(Poll::Pending) {}
    assert!(begin.elapsed().as_millis() >= 39);
    assert_eq!(sleep.poll(), Ok(Poll::Ready));
    assert_eq!(long.poll(), Ok(Poll::Pending));
}

#[test]
fn poll_follows_what_the_clock_measured() {
    let sleep = Sleep::new(1_500);
    assert_eq!(sleep.poll_measured(Ok((1, 499_999_999))), Ok(Poll::Pending));
    assert_eq!(sleep.poll_measured(Ok((1, 500_000_000))), Ok(Poll::Ready));
    assert_eq!(sleep.poll_measured(Ok((u64::MAX, 999_999_999))), Ok(Poll::Ready));
}

#[test]
fn poll_fails_when_the_clock_went_back() {
    let later = SystemTime::UNIX_EPOCH + Duration::from_secs(1);
    let error = SystemTime::UNIX_EPOCH.duration_since(later).unwrap_err();
    assert_eq!(Sleep::new(0).poll_measured(Err(error)), Err(ClockWentBack));
}

#[test]
fn sleep_counts_from_its_creation() {
    let past = SystemTime::now() - Duration::from_secs(10);
    assert_eq!(Sleep::made_at(past, 10_000).poll(), Ok(Poll::Ready));
    assert_eq!(Sleep::made_at(past, 3_600_000).poll(), Ok(Poll::Pending));
    let future = SystemTime::now() + Duration::from_secs(3_600);
    assert_eq!(Sleep::made_at(future, 0).poll(), Err(ClockWentBack));
}
