//! The schedule of the health checks.
//!
//! One prober serves every rule with fallbacks: when a pool is due, its targets are
//! visited one after the other, and the pool is due again an interval later. The
//! prober decides; whoever runs it sleeps, connects and tells the time.

use vstd::prelude::*;

verus! {

/// Where the prober stands.
#[derive(Debug, Clone, Copy, PartialEq, Eq, Structural)]
pub enum Phase {
    /// About to sleep.
    Rest,
    /// About to look whether a pool is due.
    Scan { pool: usize },
    /// About to visit a target of a pool that is due.
    Visit { pool: usize, target: usize },
}

/// What is to be done next.
#[derive(Debug, Clone, Copy, PartialEq, Eq, Structural)]
pub enum ProbeAction {
    /// Nothing but to go on.
    Proceed,
    /// Sleep until this time.
    SleepUntil { at_ms: u64 },
    /// Probe this target if traffic cannot vouch for it.
    Check { pool: usize, target: usize },
}

/// The schedule: for each pool its size, its interval and when it is due. Times are
/// in milliseconds since some fixed moment.
pub struct Schedule {
    pub sizes: Seq<usize>,
    pub intervals: Seq<u64>,
    pub due: Seq<u64>,
    pub phase: Phase,
}

/// The least of some times.
pub open spec fn earliest(due: Seq<u64>) -> u64
    decreases due.len(),
{
    if due.len() <= 1 {
        due[0]
    } else {
        let rest = earliest(due.drop_last());
        if due.last() < rest {
            due.last()
        } else {
            rest
        }
    }
}

impl Schedule {
    pub open spec fn wf(self) -> bool {
        &&& 0 < self.sizes.len() < usize::MAX
        &&& self.intervals.len() == self.sizes.len()
        &&& self.due.len() == self.sizes.len()
        &&& match self.phase {
            Phase::Rest => true,
            Phase::Scan { pool } => pool <= self.sizes.len(),
            Phase::Visit { pool, target } => pool < self.sizes.len() && target
                <= self.sizes[pool as int],
        }
    }

    /// Every pool can be scheduled an interval after `now_ms`.
    pub open spec fn can_schedule(self, now_ms: u64) -> bool {
        forall|k: int|
            0 <= k < self.intervals.len() ==> now_ms + (#[trigger] self.intervals[k]) <= u64::MAX
    }

    /// What is to be done next.
    pub open spec fn action(self) -> ProbeAction {
        match self.phase {
            Phase::Rest => ProbeAction::SleepUntil { at_ms: earliest(self.due) },
            Phase::Scan { pool } => ProbeAction::Proceed,
            Phase::Visit { pool, target } => if target < self.sizes[pool as int] {
                ProbeAction::Check { pool, target }
            } else {
                ProbeAction::Proceed
            },
        }
    }

    /// The schedule after the next step at the time `now_ms`.
    pub open spec fn next(self, now_ms: u64) -> Schedule {
        match self.phase {
            Phase::Rest => Schedule { phase: Phase::Scan { pool: 0 }, ..self },
            Phase::Scan { pool } => if pool == self.sizes.len() {
                Schedule { phase: Phase::Rest, ..self }
            } else if self.due[pool as int] > now_ms {
                Schedule { phase: Phase::Scan { pool: (pool + 1) as usize }, ..self }
            } else {
                Schedule { phase: Phase::Visit { pool, target: 0 }, ..self }
            },
            Phase::Visit { pool, target } => if target < self.sizes[pool as int] {
                Schedule {
                    phase: Phase::Visit { pool, target: (target + 1) as usize },
                    ..self
                }
            } else {
                Schedule {
                    due: self.due.update(
                        pool as int,
                        (now_ms + self.intervals[pool as int]) as u64,
                    ),
                    phase: Phase::Scan { pool: (pool + 1) as usize },
                    ..self
                }
            },
        }
    }
}

/// The prober of all rules with fallbacks.
#[derive(Debug)]
pub struct Prober {
    sizes: Vec<usize>,
    intervals: Vec<u64>,
    due: Vec<u64>,
    phase: Phase,
}

impl View for Prober {
    type V = Schedule;

    closed spec fn view(&self) -> Schedule {
        Schedule {
            sizes: self.sizes@,
            intervals: self.intervals@,
            due: self.due@,
            phase: self.phase,
        }
    }
}

impl Prober {
    /// A prober whose pools, given by their sizes and their intervals in
    /// milliseconds, are first due an interval from now.
    pub fn new(sizes: Vec<usize>, intervals: Vec<u64>, now_ms: u64) -> (r: Prober)
        requires
            0 < sizes@.len() < usize::MAX,
            intervals@.len() == sizes@.len(),
            forall|k: int|
                0 <= k < intervals@.len() ==> now_ms + (#[trigger] intervals@[k]) <= u64::MAX,
        ensures
            r@.wf(),
            r@ == (Schedule {
                sizes: sizes@,
                intervals: intervals@,
                due: intervals@.map_values(|interval: u64| (now_ms + interval) as u64),
                phase: Phase::Rest,
            }),
    {
        let mut due: Vec<u64> = Vec::new();
        let mut k: usize = 0;
        while k < intervals.len()
            invariant
                k <= intervals@.len(),
                forall|k: int|
                    0 <= k < intervals@.len() ==> now_ms + (#[trigger] intervals@[k]) <= u64::MAX,
                due@.len() == k,
                forall|j: int| 0 <= j < k ==> due@[j] == now_ms + #[trigger] intervals@[j],
            decreases intervals@.len() - k,
        {
            due.push(now_ms + intervals[k]);
            k = k + 1;
        }
        proof {
            assert(due@ =~= intervals@.map_values(|interval: u64| (now_ms + interval) as u64));
        }
        Prober { sizes, intervals, due, phase: Phase::Rest }
    }

    /// Decides what is to be done next and moves on.
    pub fn step(&mut self, now_ms: u64) -> (r: ProbeAction)
        requires
            old(self)@.wf(),
            old(self)@.can_schedule(now_ms),
        ensures
            r == old(self)@.action(),
            final(self)@ == old(self)@.next(now_ms),
            final(self)@.wf(),
    {
        match self.phase {
            Phase::Rest => {
                let at_ms = self.next_due();
                self.phase = Phase::Scan { pool: 0 };
                ProbeAction::SleepUntil { at_ms }
            },
            Phase::Scan { pool } => {
                if pool == self.sizes.len() {
                    self.phase = Phase::Rest;
                } else if self.due[pool] > now_ms {
                    self.phase = Phase::Scan { pool: pool + 1 };
                } else {
                    self.phase = Phase::Visit { pool, target: 0 };
                }
                ProbeAction::Proceed
            },
            Phase::Visit { pool, target } => {
                if target < self.sizes[pool] {
                    self.phase = Phase::Visit { pool, target: target + 1 };
                    ProbeAction::Check { pool, target }
                } else {
                    assert(now_ms + self@.intervals[pool as int] <= u64::MAX);
                    self.due[pool] = now_ms + self.intervals[pool];
                    self.phase = Phase::Scan { pool: pool + 1 };
                    ProbeAction::Proceed
                }
            },
        }
    }

    fn next_due(&self) -> (r: u64)
        requires
            self@.wf(),
        ensures
            r == earliest(self@.due),
    {
        let ghost due = self.due@;
        let mut r: u64 = self.due[0];
        let mut k: usize = 1;
        while k < self.due.len()
            invariant
                1 <= k <= due.len(),
                due == self.due@,
                r == earliest(due.take(k as int)),
            decreases due.len() - k,
        {
            proof {
                assert(due.take(k as int + 1).drop_last() =~= due.take(k as int));
            }
            if self.due[k] < r {
                r = self.due[k];
            }
            k = k + 1;
        }
        proof {
            assert(due.take(due.len() as int) =~= due);
        }
        r
    }
}

/// The prober wakes up when the first pool is due: no earlier, and no later than
/// any other is.
pub proof fn law_wakes_for_the_first_due(due: Seq<u64>, k: int)
    requires
        0 <= k < due.len(),
    ensures
        earliest(due) <= due[k],
        due.contains(earliest(due)),
    decreases due.len(),
{
    if due.len() > 1 {
        let init = due.drop_last();
        if k < init.len() {
            law_wakes_for_the_first_due(init, k);
        } else {
            law_wakes_for_the_first_due(init, 0);
        }
        let j = choose|j: int| 0 <= j < init.len() && init[j] == earliest(init);
        assert(due[j] == earliest(init));
        assert(due[due.len() - 1] == due.last());
    }
}

/// The schedule after a step at each of some times.
pub open spec fn steps(s: Schedule, times: Seq<u64>) -> Schedule
    decreases times.len(),
{
    if times.len() == 0 {
        s
    } else {
        steps(s, times.drop_last()).next(times.last())
    }
}

/// A pool that is looked at when it is due has its targets visited one at a time, in
/// order, each exactly once, however long each visit takes; and is then due again an
/// interval after the last visit ended, while the other pools stay as they were.
pub proof fn law_due_pool_is_swept(s: Schedule, pool: usize, times: Seq<u64>, i: int)
    requires
        s.wf(),
        s.phase == (Phase::Scan { pool }),
        pool < s.sizes.len(),
        times.len() == s.sizes[pool as int] + 2,
        s.due[pool as int] <= times[0],
        0 <= i <= s.sizes[pool as int],
    ensures
        i < s.sizes[pool as int] ==> steps(s, times.take(i + 1)).action() == (ProbeAction::Check {
            pool,
            target: i as usize,
        }),
        steps(s, times.take(i + 1)).due == s.due,
        steps(s, times) == (Schedule {
            due: s.due.update(
                pool as int,
                (times.last() + s.intervals[pool as int]) as u64,
            ),
            phase: Phase::Scan { pool: (pool + 1) as usize },
            ..s
        }),
{
    lemma_visits(s, pool, times, i);
    lemma_visits(s, pool, times, s.sizes[pool as int] as int);
    assert(times.drop_last() =~= times.take(s.sizes[pool as int] + 1));
}

proof fn lemma_visits(s: Schedule, pool: usize, times: Seq<u64>, i: int)
    requires
        s.wf(),
        s.phase == (Phase::Scan { pool }),
        pool < s.sizes.len(),
        times.len() == s.sizes[pool as int] + 2,
        s.due[pool as int] <= times[0],
        0 <= i <= s.sizes[pool as int],
    ensures
        steps(s, times.take(i + 1)) == (Schedule {
            phase: Phase::Visit { pool, target: i as usize },
            ..s
        }),
    decreases i,
{
    let t = times.take(i + 1);
    assert(t.last() == times[i]);
    if i == 0 {
        assert(t.drop_last() =~= seq![]);
        assert(steps(s, t.drop_last()) == s);
    } else {
        lemma_visits(s, pool, times, i - 1);
        assert(t.drop_last() =~= times.take(i));
    }
}

/// A round starts with a sleep until the first pool is due and then looks at the pools
/// from the first one on.
pub proof fn law_rounds_start_with_a_sleep(s: Schedule, now_ms: u64)
    requires
        s.phase is Rest,
    ensures
        s.action() == (ProbeAction::SleepUntil { at_ms: earliest(s.due) }),
        s.next(now_ms).phase == (Phase::Scan { pool: 0 }),
        s.next(now_ms).due == s.due,
        s.next(now_ms).sizes == s.sizes,
        s.next(now_ms).intervals == s.intervals,
{
}

/// Looking at the pools: one that is not due yet is passed over, one that is due is
/// visited from its first target on, and behind the last one the round ends. Looking
/// itself probes nothing and moves no due time.
pub proof fn law_pools_are_looked_at_in_order(s: Schedule, pool: usize, now_ms: u64)
    requires
        s.phase == (Phase::Scan { pool }),
        pool <= s.sizes.len() < usize::MAX,
    ensures
        s.action() is Proceed,
        s.next(now_ms).due == s.due,
        s.next(now_ms).sizes == s.sizes,
        s.next(now_ms).intervals == s.intervals,
        pool == s.sizes.len() ==> s.next(now_ms).phase is Rest,
        pool < s.sizes.len() && now_ms < s.due[pool as int] ==> s.next(now_ms).phase == (
            Phase::Scan { pool: (pool + 1) as usize }
        ),
        pool < s.sizes.len() && now_ms >= s.due[pool as int] ==> s.next(now_ms).phase == (
            Phase::Visit { pool, target: 0 }
        ),
{
}

/// Visiting a pool: its targets are checked one after the other; behind the last one the
/// pool is due an interval from then, and the next pool is looked at.
pub proof fn law_targets_are_visited_in_order(
    s: Schedule,
    pool: usize,
    target: usize,
    now_ms: u64,
    k: int,
)
    requires
        s.phase == (Phase::Visit { pool, target }),
        s.due.len() == s.sizes.len(),
        s.intervals.len() == s.sizes.len() < usize::MAX,
        pool < s.sizes.len(),
        target <= s.sizes[pool as int],
        now_ms + s.intervals[pool as int] <= u64::MAX,
        0 <= k < s.sizes.len(),
    ensures
        ({
            let t = s.next(now_ms);
            &&& t.sizes == s.sizes
            &&& t.intervals == s.intervals
            &&& target < s.sizes[pool as int] ==> {
                &&& s.action() == (ProbeAction::Check { pool, target })
                &&& t.phase == (Phase::Visit { pool, target: (target + 1) as usize })
                &&& t.due == s.due
            }
            &&& target == s.sizes[pool as int] ==> {
                &&& s.action() is Proceed
                &&& t.phase == (Phase::Scan { pool: (pool + 1) as usize })
                &&& t.due.len() == s.due.len()
                &&& t.due[pool as int] == now_ms + s.intervals[pool as int]
                &&& k != pool ==> t.due[k] == s.due[k]
            }
        }),
{
}

/// A step can be made whenever no due time would pass the greatest number.
pub proof fn law_steps_can_be_made(s: Schedule, now_ms: u64)
    requires
        forall|k: int|
            0 <= k < s.intervals.len() ==> now_ms + (#[trigger] s.intervals[k]) <= u64::MAX,
    ensures
        s.can_schedule(now_ms),
{
}

} // verus!
