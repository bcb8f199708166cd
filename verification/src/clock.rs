//! Wall clocks.

use shin::connection;
use std::time::{Duration, SystemTime, UNIX_EPOCH};
use vstd::prelude::*;

verus! {

#[verifier::external_type_specification]
#[verifier::external_body]
pub struct ExSystemTime(SystemTime);

/// Where a connection takes the time from, in milliseconds since the UNIX epoch.
#[derive(Debug, Clone, Copy)]
pub enum Clock {
    System,
    FixedMillis(u64),
}

/// The clock of connections that stand by themselves.
pub type WallClock = Clock;

/// How far a moment lies behind the UNIX epoch, if it does.
pub uninterp spec fn since_epoch(moment: SystemTime) -> Option<Duration>;

/// The whole milliseconds of a duration.
pub uninterp spec fn whole_millis(duration: Duration) -> u128;

/// `SystemTime::now`: the moment at which it is called. Nothing is stated of it.
#[verifier::external_body]
fn now() -> SystemTime {
    SystemTime::now()
}

/// `SystemTime::duration_since` the UNIX epoch: an error for a moment before it.
#[verifier::external_body]
fn elapsed(moment: SystemTime) -> (elapsed: Option<Duration>)
    ensures
        elapsed == since_epoch(moment),
{
    match moment.duration_since(UNIX_EPOCH) {
        Ok(duration) => Some(duration),
        Err(_) => None,
    }
}

/// `Duration::as_millis`: the whole milliseconds of a duration.
#[verifier::external_body]
fn millis(duration: Duration) -> (count: u128)
    ensures
        count == whole_millis(duration),
{
    duration.as_millis()
}

/// The milliseconds that have gone by, in 64 bits; 0 before the epoch.
pub open spec fn reading(elapsed: Option<Duration>) -> u64 {
    match elapsed {
        Some(duration) => whole_millis(duration) as u64,
        None => 0,
    }
}

/// The time at a moment, in milliseconds since the UNIX epoch; 0 before it.
pub fn millis_at(moment: SystemTime) -> (now: u64)
    ensures
        now == reading(since_epoch(moment)),
{
    match elapsed(moment) {
        Some(duration) => #[verifier::truncate]
        (millis(duration) as u64),
        None => 0,
    }
}

impl Clock {
    /// The time. A fixed clock always shows the time that it was set to.
    pub fn now_ms(&self) -> (now: u64)
        ensures
            match *self {
                Clock::System => exists|moment: SystemTime| now == reading(
                    #[trigger] since_epoch(moment),
                ),
                Clock::FixedMillis(milliseconds) => now == milliseconds,
            },
    {
        match self {
            Clock::System => millis_at(now()),
            Clock::FixedMillis(milliseconds) => *milliseconds,
        }
    }
}

impl connection::Clock for Clock {
    fn now_ms(&self) -> (now: u64)
        ensures
            match *self {
                Clock::System => exists|moment: SystemTime| now == reading(
                    #[trigger] since_epoch(moment),
                ),
                Clock::FixedMillis(milliseconds) => now == milliseconds,
            },
    {
        Clock::now_ms(self)
    }
}

} // verus!
