//! Futures for users of the runtime.
//!
//! The one future here is [`Sleep`]. It knows nothing of the executor that
//! polls it, so any executor can run it.
use std::time::SystemTime;
use std::time::SystemTimeError;
use vstd::prelude::*;

verus! {

/// A point in time of the system clock, as `std::time::SystemTime` holds it.
/// Nothing is known of its contents.
#[verifier::external_type_specification]
#[verifier::external_body]
pub struct ExSystemTime(std::time::SystemTime);

/// The error of `SystemTime::elapsed`. Nothing is known of its contents.
#[verifier::external_type_specification]
#[verifier::external_body]
pub struct ExSystemTimeError(std::time::SystemTimeError);

/// `SystemTime::now` reads the system clock. Nothing is claimed of the time
/// that it returns.
pub assume_specification[ std::time::SystemTime::now ]() -> std::time::SystemTime;

/// `SystemTime::elapsed` measures the time since `start` by the system clock.
/// On success the duration comes as its whole seconds and the nanoseconds of
/// the second begun, which are always less than one billion. Nothing is claimed
/// of how long it is, nor of when the call fails: both rest on the clock.
#[verifier::external_body]
fn elapsed_since(start: &SystemTime) -> (elapsed: Result<(u64, u32), SystemTimeError>)
    ensures
        elapsed matches Ok(parts) ==> parts.1 < 1_000_000_000,
{
    match start.elapsed() {
        Ok(duration) => Ok((duration.as_secs(), duration.subsec_nanos())),
        Err(error) => Err(error),
    }
}

/// Whether `measured` is what the clock may give as the time since `start`: an answer that
/// `elapsed_since` may return when it is called with `start`.
pub closed spec fn measured_since(
    start: SystemTime,
    measured: Result<(u64, u32), SystemTimeError>,
) -> bool {
    call_ensures(elapsed_since, (&start,), measured)
}

/// What `measured_since` speaks of is what the clock itself gives, no more and no less.
proof fn measured_by_the_clock(start: SystemTime, measured: Result<(u64, u32), SystemTimeError>)
    ensures
        measured_since(start, measured) <==> call_ensures(elapsed_since, (&start,), measured),
{
}

/// The nanoseconds of the second begun never make a whole second.
pub proof fn measured_time_is_split(start: SystemTime, secs: u64, nanos: u32)
    requires
        measured_since(start, Ok((secs, nanos))),
    ensures
        nanos < 1_000_000_000,
{
}

/// Asks `clock` for the current time, once.
fn read<C: FnOnce() -> SystemTime>(clock: C) -> (now: SystemTime)
    requires
        call_requires(clock, ()),
    ensures
        call_ensures(clock, (), now),
{
    clock()
}

/// Asks `clock` for the time since `start`, once.
fn measure<C: FnOnce(&SystemTime) -> Result<(u64, u32), SystemTimeError>>(
    clock: C,
    start: &SystemTime,
) -> (measured: Result<(u64, u32), SystemTimeError>)
    requires
        call_requires(clock, (start,)),
    ensures
        call_ensures(clock, (start,), measured),
{
    clock(start)
}

/// What polling a future once came to.
#[derive(Clone, Copy, Debug, PartialEq, Eq, Structural)]
pub enum Poll {
    /// The future has finished and is not to be polled again.
    Ready,
    /// The future has not finished and has to be polled again.
    Pending,
}

/// The system clock was set back to before the moment that a time span is
/// measured from.
#[derive(Clone, Copy, Debug, PartialEq, Eq, Structural)]
pub struct ClockWentBack;

/// The number of whole milliseconds in a time span of `secs` seconds and `nanos`
/// nanoseconds.
pub open spec fn millis_in(secs: int, nanos: int) -> int {
    (secs * 1_000_000_000 + nanos) / 1_000_000
}

/// The most whole milliseconds that a measured time span can have.
pub open spec fn longest_span() -> int {
    millis_in(u64::MAX as int, 999_999_999)
}

/// The number of whole milliseconds in a time span that is given as its whole
/// seconds and the nanoseconds of the second begun.
pub fn whole_millis(secs: u64, nanos: u32) -> (millis: u128)
    ensures
        millis == millis_in(secs as int, nanos as int),
        millis * 1_000_000 <= secs * 1_000_000_000 + nanos < (millis + 1) * 1_000_000,
{
    let millis: u128 = secs as u128 * 1_000 + (nanos / 1_000_000) as u128;
    assert(millis == millis_in(secs as int, nanos as int)) by {
        let s = secs as int;
        let n = nanos as int;
        assert((s * 1_000_000_000 + n) / 1_000_000 == s * 1_000 + n / 1_000_000);
    }
    millis
}

/// A future that lets time pass without blocking the thread that polls it. It
/// stays pending until the time is up.
pub struct Sleep {
    /// When the future was created, which may be long before it is first polled.
    now: SystemTime,
    /// How many milliseconds have to pass from then on.
    ms: u128,
}

impl Sleep {
    /// When the future was created.
    pub closed spec fn created(&self) -> SystemTime {
        self.now
    }

    /// How many milliseconds this future sleeps.
    pub closed spec fn ms(&self) -> u128 {
        self.ms
    }

    /// Whether the sleep is over once `elapsed` milliseconds have passed since the
    /// future was created.
    pub open spec fn over_after(&self, elapsed: int) -> bool {
        elapsed >= self.ms()
    }

    /// What a poll comes to when the clock has given `measured` as the time since the future
    /// was created, in whole seconds and the nanoseconds of the second begun. It fails if and
    /// only if the clock did.
    pub open spec fn outcome_of(&self, measured: Result<(u64, u32), SystemTimeError>) -> Result<
        Poll,
        ClockWentBack,
    > {
        match measured {
            Ok(parts) => if self.over_after(millis_in(parts.0 as int, parts.1 as int)) {
                Ok(Poll::Ready)
            } else {
                Ok(Poll::Pending)
            },
            Err(_) => Err(ClockWentBack),
        }
    }

    /// A future that sleeps for `ms` milliseconds, counted from this call: the moment of its
    /// creation is what the clock reads now.
    pub fn new(ms: u128) -> (sleep: Self)
        ensures
            sleep.ms() == ms,
            call_ensures(SystemTime::now, (), sleep.created()),
    {
        Self::made_at(read(SystemTime::now), ms)
    }

    /// A future that sleeps for `ms` milliseconds, counted from `now`.
    pub fn made_at(now: SystemTime, ms: u128) -> (sleep: Self)
        ensures
            sleep.ms() == ms,
            sleep.created() == now,
    {
        Self { now, ms }
    }

    /// What a poll comes to when `elapsed` milliseconds have passed since the
    /// future was created: it is ready as soon as that is enough.
    pub fn poll_after(&self, elapsed: u128) -> (outcome: Poll)
        ensures
            outcome is Ready <==> self.over_after(elapsed as int),
            outcome is Ready <==> elapsed >= self.ms(),
    {
        if elapsed >= self.ms {
            Poll::Ready
        } else {
            Poll::Pending
        }
    }

    /// What a poll comes to when the clock has given `measured` as the time since the future
    /// was created.
    pub fn poll_measured(&self, measured: Result<(u64, u32), SystemTimeError>) -> (outcome: Result<
        Poll,
        ClockWentBack,
    >)
        ensures
            outcome == self.outcome_of(measured),
            measured matches Ok(parts) ==> outcome == Ok::<Poll, ClockWentBack>(
                if parts.0 * 1_000_000_000 + parts.1 >= self.ms() * 1_000_000 {
                    Poll::Ready
                } else {
                    Poll::Pending
                },
            ),
            measured is Err <==> outcome is Err,
    {
        match measured {
            Ok(parts) => {
                let (secs, nanos) = parts;
                Ok(self.poll_after(whole_millis(secs, nanos)))
            },
            Err(_) => Err(ClockWentBack),
        }
    }

    /// Asks the clock how much time has passed since the future was created, and tells whether
    /// that is enough: the outcome is that of a time which the clock may give for the moment of
    /// creation, whenever the future was polled before. Whether the clock can be read, and what
    /// it says, rests on the machine. Whatever it says, a sleep of no time is over, and one
    /// longer than any time span that the clock can measure is not.
    pub fn poll(&self) -> (outcome: Result<Poll, ClockWentBack>)
        ensures
            exists|measured: Result<(u64, u32), SystemTimeError>| #[trigger]
                measured_since(self.created(), measured) && outcome == self.outcome_of(measured)
                    && (match measured {
                    Ok(parts) => outcome == Ok::<Poll, ClockWentBack>(
                        if parts.0 * 1_000_000_000 + parts.1 >= self.ms() * 1_000_000 {
                            Poll::Ready
                        } else {
                            Poll::Pending
                        },
                    ),
                    Err(_) => outcome is Err,
                }),
            outcome matches Ok(poll) ==> {
                &&& self.ms() == 0 ==> poll is Ready
                &&& self.ms() > longest_span() ==> poll is Pending
            },
    {
        let measured = measure(elapsed_since, &self.now);
        proof {
            measured_by_the_clock(self.created(), measured);
        }
        self.poll_measured(measured)
    }
}

/// A sleep that is over stays over: a poll that comes after a time span that is no
/// shorter than one that was enough is ready too.
pub proof fn sleep_stays_over(sleep: Sleep, secs: u64, nanos: u32, later_secs: u64, later_nanos: u32)
    requires
        secs * 1_000_000_000 + nanos <= later_secs * 1_000_000_000 + later_nanos,
        sleep.over_after(millis_in(secs as int, nanos as int)),
    ensures
        sleep.over_after(millis_in(later_secs as int, later_nanos as int)),
{
}

/// A sleep never ends early: if it is over, at least as many milliseconds have passed
/// as it was made for.
pub proof fn sleep_is_long_enough(sleep: Sleep, secs: u64, nanos: u32)
    ensures
        sleep.over_after(millis_in(secs as int, nanos as int)) <==> secs * 1_000_000_000 + nanos
            >= sleep.ms() * 1_000_000,
{
}

/// The whole milliseconds of a time span are as many as fit into it: no more, and no less.
pub proof fn whole_millis_fit(secs: u64, nanos: u32)
    ensures
        ({
            let millis = millis_in(secs as int, nanos as int);
            let span = secs * 1_000_000_000 + nanos;
            &&& millis * 1_000_000 <= span
            &&& span < (millis + 1) * 1_000_000
        }),
{
}

/// Whatever time a clock measures, a poll comes to `Ready` if and only if at least as many
/// nanoseconds have passed as there are in the milliseconds that the sleep was made for, and to
/// `Pending` if not.
pub proof fn poll_goes_by_the_time_passed(sleep: Sleep, secs: u64, nanos: u32)
    ensures
        sleep.outcome_of(Ok((secs, nanos))) is Ok,
        sleep.outcome_of(Ok((secs, nanos))) == Ok::<Poll, ClockWentBack>(Poll::Ready) <==> secs
            * 1_000_000_000 + nanos >= sleep.ms() * 1_000_000,
        sleep.outcome_of(Ok((secs, nanos))) == Ok::<Poll, ClockWentBack>(Poll::Pending) <==> secs
            * 1_000_000_000 + nanos < sleep.ms() * 1_000_000,
{
}

/// A poll fails if and only if the clock could not be read.
pub proof fn poll_fails_with_the_clock(
    sleep: Sleep,
    measured: Result<(u64, u32), SystemTimeError>,
)
    ensures
        sleep.outcome_of(measured) is Err <==> measured is Err,
{
}

/// Of two polls of one sleep, the one that comes after the longer time is ready if the other is;
/// of two sleeps that are polled after the same time, the shorter one is ready if the longer is.
pub proof fn longer_waits_and_shorter_sleeps(
    sleep: Sleep,
    longer: Sleep,
    secs: u64,
    nanos: u32,
    later_secs: u64,
    later_nanos: u32,
)
    requires
        sleep.ms() <= longer.ms(),
        secs * 1_000_000_000 + nanos <= later_secs * 1_000_000_000 + later_nanos,
        longer.outcome_of(Ok((secs, nanos))) == Ok::<Poll, ClockWentBack>(Poll::Ready),
    ensures
        longer.outcome_of(Ok((later_secs, later_nanos))) == Ok::<Poll, ClockWentBack>(Poll::Ready),
        sleep.outcome_of(Ok((secs, nanos))) == Ok::<Poll, ClockWentBack>(Poll::Ready),
{
}

} // verus!
