//! Per-user traffic quotas and hourly billing.
//!
//! Billing follows the carrier model: each local wall-clock hour is one billing
//! period, charged the larger of its two directions; billed usage is the sum over
//! the hours.

use crate::clock::{hour_of, Clock};
use vstd::prelude::*;

verus! {

/// Which way bytes go.
#[derive(Debug, Clone, Copy, PartialEq, Eq, Structural)]
pub enum Direction {
    Upload,
    Download,
}

/// A snapshot of every counter that is persisted.
#[derive(Debug, Clone, Copy, PartialEq, Eq, Structural)]
pub struct SavedUsage {
    pub upload: u64,
    pub download: u64,
    pub settled: u64,
    pub hour_upload: u64,
    pub hour_download: u64,
    pub hour_id: i64,
}

impl Default for SavedUsage {
    fn default() -> (r: SavedUsage)
        ensures
            r == no_usage(),
    {
        SavedUsage {
            upload: 0,
            download: 0,
            settled: 0,
            hour_upload: 0,
            hour_download: 0,
            hour_id: 0,
        }
    }
}

impl SavedUsage {
    /// Whether the usage that the snapshot stands for is a number that can be told.
    pub fn can_tell_used(&self) -> (r: bool)
        ensures
            r == (saved_used(*self) <= u64::MAX),
    {
        max_of(self.hour_upload, self.hour_download) <= u64::MAX - self.settled
    }
}

/// The snapshot of a user that nothing is known of.
pub open spec fn no_usage() -> SavedUsage {
    SavedUsage {
        upload: 0,
        download: 0,
        settled: 0,
        hour_upload: 0,
        hour_download: 0,
        hour_id: 0,
    }
}

/// The larger of two counters.
pub open spec fn larger(a: u64, b: u64) -> u64 {
    if a >= b {
        a
    } else {
        b
    }
}

/// The sum of two counters, which starts again at zero past the greatest number.
pub open spec fn wrapped(a: u64, b: u64) -> u64 {
    if a + b <= u64::MAX {
        (a + b) as u64
    } else {
        (a + b - u64::MAX - 1) as u64
    }
}

/// The counters of a quota.
pub struct QuotaState {
    /// `None` means unlimited: usage is tracked, never enforced.
    pub limit: Option<u64>,
    /// Lifetime totals.
    pub upload: u64,
    pub download: u64,
    /// The sum, over all completed hours, of the larger direction.
    pub settled: u64,
    /// Bytes moved in the hour `hour`.
    pub hour_upload: u64,
    pub hour_download: u64,
    pub hour: i64,
    /// All of the user's traffic must stop.
    pub exhausted: bool,
}

impl QuotaState {
    /// The current hour's billed traffic: its larger direction.
    pub open spec fn hour_used(self) -> u64 {
        larger(self.hour_upload, self.hour_download)
    }

    /// Billed usage: the settled hours and the current one.
    pub open spec fn used(self) -> int {
        self.settled + self.hour_used()
    }

    /// Usage has reached the limit.
    pub open spec fn at_limit(self) -> bool {
        self.limit is Some && self.used() >= self.limit->0
    }

    /// The quota is exhausted exactly if usage has reached the limit, and the usage
    /// of a limited user is a number that can be told.
    pub open spec fn wf(self) -> bool {
        &&& self.exhausted == self.at_limit()
        &&& self.limit is Some ==> self.used() <= u64::MAX
    }

    /// The hour `hour` has come: where it is another one, the finished hour is added
    /// to what is settled and its buckets are emptied.
    pub open spec fn settle(self, hour: i64) -> QuotaState {
        if self.hour == hour {
            self
        } else {
            QuotaState {
                settled: wrapped(self.settled, self.hour_used()),
                hour_upload: 0,
                hour_download: 0,
                hour,
                ..self
            }
        }
    }

    /// Bytes are counted, in the lifetime total and in the hour.
    pub open spec fn count(self, n: u64, direction: Direction) -> QuotaState {
        match direction {
            Direction::Upload => QuotaState {
                upload: wrapped(self.upload, n),
                hour_upload: wrapped(self.hour_upload, n),
                ..self
            },
            Direction::Download => QuotaState {
                download: wrapped(self.download, n),
                hour_download: wrapped(self.hour_download, n),
                ..self
            },
        }
    }

    /// Bytes are transferred in an hour: nothing is counted once the quota is
    /// exhausted; else they are, and the quota may run out.
    pub open spec fn consume(self, n: u64, direction: Direction, hour: i64) -> QuotaState {
        if self.exhausted {
            self
        } else {
            let counted = self.settle(hour).count(n, direction);
            QuotaState { exhausted: counted.at_limit(), ..counted }
        }
    }

    /// The usage of a limited user can still be told after the transfer.
    pub open spec fn can_consume(self, n: u64, direction: Direction, hour: i64) -> bool {
        self.limit is Some && !self.exhausted ==> self.settle(hour).count(n, direction).used()
            <= u64::MAX
    }

    /// The bytes that are left before the limit.
    pub open spec fn remaining(self) -> Option<u64> {
        match self.limit {
            Some(limit) => Some(
                if self.used() <= limit {
                    (limit - self.used()) as u64
                } else {
                    0
                },
            ),
            None => None,
        }
    }

    /// What is persisted.
    pub open spec fn saved(self) -> SavedUsage {
        SavedUsage {
            upload: self.upload,
            download: self.download,
            settled: self.settled,
            hour_upload: self.hour_upload,
            hour_download: self.hour_download,
            hour_id: self.hour,
        }
    }
}

/// The usage that a snapshot stands for.
pub open spec fn saved_used(saved: SavedUsage) -> int {
    saved.settled + larger(saved.hour_upload, saved.hour_download)
}

/// The counters that start from a snapshot: one from the current hour resumes its
/// buckets, one from another hour settles first.
pub open spec fn restored(limit: Option<u64>, saved: SavedUsage, hour: i64) -> QuotaState {
    let exhausted = limit is Some && saved_used(saved) >= limit->0;
    if saved.hour_id == hour {
        QuotaState {
            limit,
            upload: saved.upload,
            download: saved.download,
            settled: saved.settled,
            hour_upload: saved.hour_upload,
            hour_download: saved.hour_download,
            hour,
            exhausted,
        }
    } else {
        QuotaState {
            limit,
            upload: saved.upload,
            download: saved.download,
            settled: saved_used(saved) as u64,
            hour_upload: 0,
            hour_download: 0,
            hour,
            exhausted,
        }
    }
}

/// The traffic quota of a user, shared by every rule of that user.
#[derive(Debug)]
pub struct UserQuota {
    pub name: String,
    /// `None` means unlimited: usage is still tracked, never enforced.
    pub limit: Option<u64>,
    total_upload: u64,
    total_download: u64,
    settled: u64,
    hour_upload: u64,
    hour_download: u64,
    bucket_hour: i64,
    exhausted: bool,
}

impl View for UserQuota {
    type V = QuotaState;

    closed spec fn view(&self) -> QuotaState {
        QuotaState {
            limit: self.limit,
            upload: self.total_upload,
            download: self.total_download,
            settled: self.settled,
            hour_upload: self.hour_upload,
            hour_download: self.hour_download,
            hour: self.bucket_hour,
            exhausted: self.exhausted,
        }
    }
}

fn max_of(a: u64, b: u64) -> (r: u64)
    ensures
        r == larger(a, b),
{
    if a >= b {
        a
    } else {
        b
    }
}

fn wrapping_sum(a: u64, b: u64) -> (r: u64)
    ensures
        r == wrapped(a, b),
{
    if b <= u64::MAX - a {
        a + b
    } else {
        b - (u64::MAX - a) - 1
    }
}

impl UserQuota {
    /// The name of the user.
    pub closed spec fn user_name(&self) -> Seq<char> {
        self.name@
    }

    /// A quota that starts from a snapshot in the given hour.
    pub fn new_at(name: String, limit: Option<u64>, saved: SavedUsage, now_hour: i64) -> (r:
        UserQuota)
        requires
            saved_used(saved) <= u64::MAX,
        ensures
            r@ == restored(limit, saved, now_hour),
            r@.wf(),
            r.user_name() == name@,
    {
        let (settled, hour_upload, hour_download): (u64, u64, u64) = if saved.hour_id == now_hour {
            (saved.settled, saved.hour_upload, saved.hour_download)
        } else {
            (saved.settled + max_of(saved.hour_upload, saved.hour_download), 0, 0)
        };
        let used: u64 = settled + max_of(hour_upload, hour_download);
        let exhausted: bool = match limit {
            Some(limit) => used >= limit,
            None => false,
        };
        UserQuota {
            name,
            limit,
            total_upload: saved.upload,
            total_download: saved.download,
            settled,
            hour_upload,
            hour_download,
            bucket_hour: now_hour,
            exhausted,
        }
    }

    /// A quota that starts from a snapshot at a Unix time.
    pub fn new(
        name: String,
        limit: Option<u64>,
        saved: SavedUsage,
        clock: &Clock,
        unix_secs: i64,
    ) -> (r: UserQuota)
        requires
            saved_used(saved) <= u64::MAX,
            clock.can_tell(unix_secs),
        ensures
            r@ == restored(limit, saved, hour_of(unix_secs + clock.offset()) as i64),
            r@.wf(),
            r.user_name() == name@,
    {
        UserQuota::new_at(name, limit, saved, clock.current_hour_id(unix_secs))
    }

    /// The name of the user.
    pub fn name(&self) -> (r: &str)
        ensures
            r@ == self.user_name(),
    {
        self.name.as_str()
    }

    /// The limit of the user.
    pub fn limit(&self) -> (r: Option<u64>)
        ensures
            r == self@.limit,
    {
        self.limit
    }

    /// Whether the usage of a limited user can still be told after a transfer.
    pub fn can_consume_at(&self, n: u64, direction: Direction, now_hour: i64) -> (r: bool)
        requires
            self@.wf(),
        ensures
            r == self@.can_consume(n, direction, now_hour),
    {
        if self.limit.is_none() || self.exhausted {
            return true;
        }
        let (settled, up, down): (u64, u64, u64) = if self.bucket_hour == now_hour {
            (self.settled, self.hour_upload, self.hour_download)
        } else {
            (wrapping_sum(self.settled, max_of(self.hour_upload, self.hour_download)), 0, 0)
        };
        let billed: u64 = match direction {
            Direction::Upload => max_of(wrapping_sum(up, n), down),
            Direction::Download => max_of(up, wrapping_sum(down, n)),
        };
        billed <= u64::MAX - settled
    }

    /// Records `n` transferred bytes in the given hour. Returns `false` if the quota
    /// is (now) exhausted, in which case all of this user's traffic must stop.
    pub fn try_consume_at(&mut self, n: u64, direction: Direction, now_hour: i64) -> (r: bool)
        requires
            old(self)@.wf(),
            old(self)@.can_consume(n, direction, now_hour),
        ensures
            final(self)@ == old(self)@.consume(n, direction, now_hour),
            final(self)@.wf(),
            r == !final(self)@.exhausted,
            final(self).user_name() == old(self).user_name(),
    {
        if self.exhausted {
            return false;
        }
        if self.bucket_hour != now_hour {
            self.settle_to(now_hour);
        }
        match direction {
            Direction::Upload => {
                self.total_upload = wrapping_sum(self.total_upload, n);
                self.hour_upload = wrapping_sum(self.hour_upload, n);
            },
            Direction::Download => {
                self.total_download = wrapping_sum(self.total_download, n);
                self.hour_download = wrapping_sum(self.hour_download, n);
            },
        }
        if let Some(limit) = self.limit {
            if self.settled + max_of(self.hour_upload, self.hour_download) >= limit {
                self.exhausted = true;
                return false;
            }
        }
        true
    }

    /// Records `n` transferred bytes at a Unix time. An hour that is settled on the way
    /// has the clock refreshed once; which offset that gives depends on the machine.
    pub fn try_consume(
        &mut self,
        n: u64,
        direction: Direction,
        clock: &mut Clock,
        unix_secs: i64,
    ) -> (r: bool)
        requires
            old(self)@.wf(),
            old(clock).wf(),
            old(clock).can_tell(unix_secs),
            old(self)@.can_consume(
                n,
                direction,
                hour_of(unix_secs + old(clock).offset()) as i64,
            ),
        ensures
            final(self)@ == old(self)@.consume(
                n,
                direction,
                hour_of(unix_secs + old(clock).offset()) as i64,
            ),
            final(self)@.wf(),
            r == !final(self)@.exhausted,
            final(self).user_name() == old(self).user_name(),
            final(clock).wf(),
            final(self)@.hour == old(self)@.hour ==> *final(clock) == *old(clock),
            final(self)@.hour != old(self)@.hour ==> final(clock).refreshes() == old(
                clock,
            ).refreshes() + 1,
    {
        let now_hour = clock.current_hour_id(unix_secs);
        let before = self.bucket_hour;
        let r = self.try_consume_at(n, direction, now_hour);
        if self.bucket_hour != before {
            clock.refresh_offset();
        }
        r
    }

    /// Folds the finished hour's buckets into `settled`. Where usage can be told, it reads
    /// the same before and after, so that nothing depends on how promptly this happens.
    /// Settling to the hour that is running already changes nothing.
    pub fn settle_to(&mut self, now_hour: i64)
        ensures
            final(self)@ == old(self)@.settle(now_hour),
            final(self).user_name() == old(self).user_name(),
            final(self)@.limit == old(self)@.limit,
            final(self)@.upload == old(self)@.upload,
            final(self)@.download == old(self)@.download,
            final(self)@.exhausted == old(self)@.exhausted,
            final(self)@.hour == now_hour,
            old(self)@.wf() ==> final(self)@.wf(),
            old(self)@.used() <= u64::MAX ==> final(self)@.used() == old(self)@.used(),
            old(self)@.hour == now_hour ==> final(self)@ == old(self)@,
            old(self)@.hour != now_hour ==> final(self)@.hour_used() == 0,
            old(self)@.hour != now_hour && old(self)@.used() <= u64::MAX ==> final(self)@.settled
                == old(self)@.used(),
            final(self)@.settle(now_hour) == final(self)@,
    {
        if self.bucket_hour == now_hour {
            return ;
        }
        let billed = max_of(self.hour_upload, self.hour_download);
        self.hour_upload = 0;
        self.hour_download = 0;
        self.settled = wrapping_sum(self.settled, billed);
        self.bucket_hour = now_hour;
    }

    /// Whether the quota has run out.
    pub fn is_exhausted(&self) -> (r: bool)
        ensures
            r == self@.exhausted,
    {
        self.exhausted
    }

    /// Lifetime upload.
    pub fn upload(&self) -> (r: u64)
        ensures
            r == self@.upload,
    {
        self.total_upload
    }

    /// Lifetime download.
    pub fn download(&self) -> (r: u64)
        ensures
            r == self@.download,
    {
        self.total_download
    }

    /// The current hour's billed traffic so far: the larger direction of its
    /// buckets.
    pub fn hour_used(&self) -> (r: u64)
        ensures
            r == self@.hour_used(),
    {
        max_of(self.hour_upload, self.hour_download)
    }

    /// Whether billed usage is a number that can be told; it always is for a limited
    /// user.
    pub fn can_tell_used(&self) -> (r: bool)
        ensures
            r == (self@.used() <= u64::MAX),
    {
        max_of(self.hour_upload, self.hour_download) <= u64::MAX - self.settled
    }

    /// Billed usage: every settled hour's larger direction summed, plus the current
    /// hour's.
    pub fn used(&self) -> (r: u64)
        requires
            self@.used() <= u64::MAX,
        ensures
            r == self@.used(),
    {
        self.settled + self.hour_used()
    }

    /// The bytes that are left before the limit; `None` when unlimited.
    pub fn remaining(&self) -> (r: Option<u64>)
        requires
            self@.wf(),
        ensures
            r == self@.remaining(),
    {
        match self.limit {
            Some(limit) => Some(limit.saturating_sub(self.used())),
            None => None,
        }
    }

    /// A snapshot for persistence.
    pub fn snapshot(&self) -> (r: SavedUsage)
        ensures
            r == self@.saved(),
    {
        SavedUsage {
            upload: self.total_upload,
            download: self.total_download,
            settled: self.settled,
            hour_upload: self.hour_upload,
            hour_download: self.hour_download,
            hour_id: self.bucket_hour,
        }
    }
}

} // verus!
