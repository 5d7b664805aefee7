//! The local wall clock that billing periods go by.

use vstd::prelude::*;

verus! {

/// The seconds of a billing period.
pub const HOUR_SECS: i64 = 3600;

/// The offset of a time zone from UTC stays within a day.
pub open spec fn is_offset(secs: int) -> bool {
    -86_400 < secs < 86_400
}

/// Asks `chrono::Local::now` for the local time and takes from it the seconds by
/// which the time zone of this machine is ahead of UTC. The contract claims what
/// holds of every `FixedOffset` that chrono makes: it is less than a day either
/// way. Which offset it is depends on the machine and the date and is left open.
/// chrono takes the system clock to be past the Unix epoch, and the time zone file of
/// the machine to give an offset of less than a day: it panics otherwise.
#[verifier::external_body]
fn local_offset_secs() -> (secs: i32)
    ensures
        is_offset(secs as int),
{
    chrono::Local::now().offset().local_minus_utc()
}

/// The number of the hour, since the epoch, that a local time in seconds falls in.
pub open spec fn hour_of(local: int) -> int {
    local / (HOUR_SECS as int)
}

/// The seconds from a local time to the next full hour.
pub open spec fn secs_to_hour(local: int) -> int {
    HOUR_SECS - local % (HOUR_SECS as int)
}

/// A clock that knows the offset of the local time zone. The offset is refreshed at
/// the start and again at every hourly settlement, so that the hot path never asks the
/// operating system for it. A ghost counter keeps track of the refreshes.
pub struct Clock {
    offset_secs: i64,
    refreshes: Ghost<nat>,
}

impl Clock {
    /// The seconds by which local time is ahead of UTC.
    pub closed spec fn offset(&self) -> int {
        self.offset_secs as int
    }

    /// How often `refresh_offset` was called on this clock. It counts those calls alone:
    /// no contract ties it to a call of chrono.
    pub closed spec fn refreshes(&self) -> nat {
        self.refreshes@
    }

    /// The offset is one that a time zone can have.
    pub open spec fn wf(&self) -> bool {
        is_offset(self.offset())
    }

    /// Local time can be told in an `i64` at this Unix time.
    pub open spec fn can_tell(&self, unix_secs: i64) -> bool {
        i64::MIN <= unix_secs + self.offset() <= i64::MAX
    }

    /// A clock for the time zone of this machine.
    pub fn new() -> (r: Clock)
        ensures
            r.wf(),
            r.refreshes() == 1,
    {
        let mut clock = Clock::with_offset(0);
        clock.refresh_offset();
        clock
    }

    /// A clock for a time zone with the given offset.
    pub fn with_offset(offset_secs: i32) -> (r: Clock)
        requires
            is_offset(offset_secs as int),
        ensures
            r.wf(),
            r.offset() == offset_secs,
            r.refreshes() == 0,
    {
        Clock { offset_secs: offset_secs as i64, refreshes: Ghost(0) }
    }

    /// Reads the offset of the time zone of this machine anew. The contract says that the
    /// refresh is counted and that the offset is one a time zone can have; which one it is
    /// depends on the machine.
    pub fn refresh_offset(&mut self)
        ensures
            final(self).wf(),
            final(self).refreshes() == old(self).refreshes() + 1,
    {
        self.offset_secs = local_offset_secs() as i64;
        self.refreshes = Ghost(self.refreshes@ + 1);
    }

    /// The local time in seconds at a Unix time.
    pub fn local_now(&self, unix_secs: i64) -> (r: i64)
        requires
            self.can_tell(unix_secs),
        ensures
            r == unix_secs + self.offset(),
    {
        unix_secs + self.offset_secs
    }

    /// The hour number of the local wall clock since the epoch; the key of a billing
    /// period.
    pub fn current_hour_id(&self, unix_secs: i64) -> (r: i64)
        requires
            self.can_tell(unix_secs),
        ensures
            r == hour_of(unix_secs + self.offset()),
            3600 * r <= unix_secs + self.offset() < 3600 * r + 3600,
    {
        self.local_now(unix_secs).checked_div_euclid(HOUR_SECS).unwrap()
    }

    /// The seconds until the next local hour boundary (at least 1).
    pub fn secs_until_next_hour(&self, unix_secs: i64) -> (r: u64)
        requires
            self.can_tell(unix_secs),
        ensures
            r == secs_to_hour(unix_secs + self.offset()),
            1 <= r <= HOUR_SECS,
            (unix_secs + self.offset() + r) % 3600 == 0,
    {
        (HOUR_SECS - self.local_now(unix_secs).checked_rem_euclid(HOUR_SECS).unwrap()) as u64
    }
}

/// The next hour starts exactly when the seconds that are left of this one have
/// passed, and not before.
pub proof fn law_hour_turns_on_time(local: int, passed: int)
    requires
        0 <= passed <= secs_to_hour(local),
    ensures
        hour_of(local + passed) == if passed < secs_to_hour(local) {
            hour_of(local)
        } else {
            hour_of(local) + 1
        },
{
}

/// Hours are those of the wall clock: each starts at a multiple of 3600 seconds of local
/// time and lasts 3600 seconds, and the next full hour is the next such multiple.
pub proof fn law_hours_are_those_of_the_wall_clock(local: int)
    ensures
        3600 * hour_of(local) <= local < 3600 * hour_of(local) + 3600,
        1 <= secs_to_hour(local) <= 3600,
        (local + secs_to_hour(local)) % 3600 == 0,
{
}

/// A time zone may be ahead of or behind UTC by anything less than a day, and whatever
/// it is, a clock tells every local time that is a number of 64 bits.
pub proof fn law_every_time_zone_is_served(clock: Clock, secs: int, unix_secs: i64)
    ensures
        is_offset(secs) <==> -86_400 < secs < 86_400,
        clock.wf() <==> -86_400 < clock.offset() < 86_400,
        clock.can_tell(unix_secs) <==> -0x8000_0000_0000_0000 <= unix_secs + clock.offset()
            < 0x8000_0000_0000_0000,
{
}

} // verus!
