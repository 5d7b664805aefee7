//! Prioritized targets with failover and failback.

use vstd::prelude::*;
use vstd::string::*;

verus! {

/// The seconds after which an attempt to connect is given up.
pub const CONNECT_TIMEOUT_SECS: u64 = 5;

/// The first healthy target, or the primary when everything is down.
pub open spec fn first_healthy(healthy: Seq<bool>) -> nat
    decreases healthy.len(),
{
    if !healthy.contains(true) || healthy[0] {
        0
    } else {
        1 + first_healthy(healthy.skip(1))
    }
}

/// A change of the active target.
#[derive(Debug, Clone, Copy, PartialEq, Eq, Structural)]
pub enum Switch {
    /// All targets are down; the primary is retried.
    AllDown { from: usize, to: usize },
    /// The active target went down; one of lower priority takes over.
    Failover { from: usize, to: usize },
    /// A target of higher priority recovered and takes over.
    Failback { from: usize, to: usize },
}

/// What came of a target being marked up or down.
#[derive(Debug, Clone, Copy, PartialEq, Eq, Structural)]
pub struct Change {
    /// The active target changed, and everyone who follows it has to know.
    pub switch: Option<Switch>,
    /// The target is to be marked up again after these seconds.
    pub rearm_secs: Option<u64>,
}

/// The change of the active target when the health of the targets is `healthy`.
pub open spec fn switch_to(from: nat, healthy: Seq<bool>) -> Option<Switch> {
    let to = first_healthy(healthy);
    if to == from {
        None
    } else if !healthy[to as int] {
        Some(Switch::AllDown { from: from as usize, to: to as usize })
    } else if to > from {
        Some(Switch::Failover { from: from as usize, to: to as usize })
    } else {
        Some(Switch::Failback { from: from as usize, to: to as usize })
    }
}

/// The targets of a pool and what is known of them.
pub struct PoolState {
    pub targets: Seq<Seq<char>>,
    pub healthy: Seq<bool>,
    /// The target that new connections go to.
    pub active: nat,
    /// After how many seconds a downed target is tried again, where it is not
    /// probed.
    pub cooldown_secs: Option<u64>,
    /// When each target was last reached, in milliseconds since the pool was made.
    pub confirmed: Seq<u64>,
}

impl PoolState {
    /// The active target is the first healthy one, or the primary when all are down.
    pub open spec fn wf(self) -> bool {
        &&& 0 < self.targets.len() <= usize::MAX
        &&& self.healthy.len() == self.targets.len()
        &&& self.confirmed.len() == self.targets.len()
        &&& self.active == first_healthy(self.healthy)
    }

    /// The health of one target is set; the active target follows.
    pub open spec fn with_health(self, i: int, up: bool) -> PoolState {
        let healthy = self.healthy.update(i, up);
        PoolState { healthy, active: first_healthy(healthy), ..self }
    }

    /// What a change of the health of one target brings about.
    pub open spec fn health_change(self, i: int, up: bool) -> Change {
        Change {
            switch: if self.healthy[i] == up {
                None
            } else {
                switch_to(self.active, self.healthy.update(i, up))
            },
            rearm_secs: if self.healthy[i] && !up {
                self.cooldown_secs
            } else {
                None
            },
        }
    }

    /// A target was reached.
    pub open spec fn with_confirmation(self, i: int, now_ms: u64) -> PoolState {
        PoolState { confirmed: self.confirmed.update(i, now_ms), ..self }.with_health(i, true)
    }

    /// Traffic cannot vouch for a target: it is down, or it was not reached within the
    /// interval.
    pub open spec fn needs_probe(self, i: int, interval_ms: u64, now_ms: u64) -> bool {
        let elapsed = if now_ms >= self.confirmed[i] {
            now_ms - self.confirmed[i]
        } else {
            0
        };
        !self.healthy[i] || elapsed >= interval_ms
    }
}

/// Prioritized targets for one rule, shared by its TCP and UDP sides.
///
/// Real traffic is the primary health signal: a confirmed delivery marks a target
/// up, a connection failure marks it down. For rules with fallbacks a probe
/// backstops targets that traffic cannot vouch for, while UDP-only rules, which
/// cannot be probed, arm a downed target again after a cooldown.
#[derive(Debug)]
pub struct TargetPool {
    user: String,
    targets: Vec<String>,
    healthy: Vec<bool>,
    active: usize,
    cooldown_secs: Option<u64>,
    confirmed: Vec<u64>,
}

impl View for TargetPool {
    type V = PoolState;

    closed spec fn view(&self) -> PoolState {
        PoolState {
            targets: self.targets@.map_values(|s: String| s@),
            healthy: self.healthy@,
            active: self.active as nat,
            cooldown_secs: self.cooldown_secs,
            confirmed: self.confirmed@,
        }
    }
}

/// No target before the first healthy one is healthy; it is healthy itself unless
/// none is.
pub(crate) proof fn lemma_first_healthy(healthy: Seq<bool>)
    ensures
        forall|j: int| 0 <= j < first_healthy(healthy) ==> !(#[trigger] healthy[j]),
        healthy.len() > 0 ==> first_healthy(healthy) < healthy.len(),
        healthy.contains(true) ==> healthy[first_healthy(healthy) as int],
        !healthy.contains(true) ==> first_healthy(healthy) == 0,
    decreases healthy.len(),
{
    if healthy.contains(true) && !healthy[0] {
        let rest = healthy.skip(1);
        let k = choose|k: int| 0 <= k < healthy.len() && healthy[k];
        assert(rest[k - 1]);
        assert(rest.contains(true));
        lemma_first_healthy(rest);
        assert forall|j: int| 0 <= j < first_healthy(healthy) implies !(#[trigger] healthy[j]) by {
            if j > 0 {
                assert(!rest[j - 1]);
            }
        }
        assert(rest[first_healthy(rest) as int] == healthy[first_healthy(rest) as int + 1]);
    }
}

/// A position that is healthy with none healthy before it is the first.
pub(crate) proof fn lemma_first_healthy_unique(healthy: Seq<bool>, i: int)
    requires
        0 <= i < healthy.len(),
        healthy[i],
        forall|j: int| 0 <= j < i ==> !(#[trigger] healthy[j]),
    ensures
        first_healthy(healthy) == i,
{
    lemma_first_healthy(healthy);
    assert(healthy.contains(true));
    let f = first_healthy(healthy) as int;
    if f < i {
        assert(!healthy[f]);
    }
}

fn find_first_healthy(healthy: &Vec<bool>) -> (r: usize)
    requires
        healthy@.len() > 0,
    ensures
        r == first_healthy(healthy@),
        r < healthy@.len(),
{
    let mut i: usize = 0;
    while i < healthy.len()
        invariant
            i <= healthy@.len(),
            forall|j: int| 0 <= j < i ==> !(#[trigger] healthy@[j]),
        decreases healthy@.len() - i,
    {
        if healthy[i] {
            proof {
                lemma_first_healthy_unique(healthy@, i as int);
            }
            return i;
        }
        i = i + 1;
    }
    proof {
        assert(!healthy@.contains(true));
    }
    0
}

impl TargetPool {
    /// The name of the user whose rule this is.
    pub closed spec fn user_name(&self) -> Seq<char> {
        self.user@
    }

    /// A pool whose targets are all taken to be healthy and just reached.
    pub fn new(user: String, targets: Vec<String>, cooldown_secs: Option<u64>) -> (r: TargetPool)
        requires
            targets@.len() > 0,
        ensures
            r@.wf(),
            r@ == (PoolState {
                targets: targets@.map_values(|s: String| s@),
                healthy: Seq::new(targets@.len(), |i: int| true),
                active: 0,
                cooldown_secs,
                confirmed: Seq::new(targets@.len(), |i: int| 0u64),
            }),
            r.user_name() == user@,
    {
        let mut healthy: Vec<bool> = Vec::new();
        let mut confirmed: Vec<u64> = Vec::new();
        let mut i: usize = 0;
        while i < targets.len()
            invariant
                i <= targets@.len(),
                healthy@ == Seq::new(i as nat, |j: int| true),
                confirmed@ == Seq::new(i as nat, |j: int| 0u64),
            decreases targets@.len() - i,
        {
            healthy.push(true);
            confirmed.push(0);
            proof {
                assert(healthy@ =~= Seq::new((i + 1) as nat, |j: int| true));
                assert(confirmed@ =~= Seq::new((i + 1) as nat, |j: int| 0u64));
            }
            i = i + 1;
        }
        let r = TargetPool { user, targets, healthy, active: 0, cooldown_secs, confirmed };
        proof {
            assert(r@.healthy[0]);
        }
        r
    }

    /// The name of the user whose rule this is.
    pub fn user(&self) -> (r: &str)
        ensures
            r@ == self.user_name(),
    {
        self.user.as_str()
    }

    /// The number of targets.
    pub fn len(&self) -> (r: usize)
        ensures
            r == self@.targets.len(),
    {
        self.targets.len()
    }

    /// A target as it was written.
    pub fn target(&self, i: usize) -> (r: &str)
        requires
            i < self@.targets.len(),
        ensures
            r@ == self@.targets[i as int],
    {
        self.targets[i].as_str()
    }

    /// The current active target: highest-priority healthy, or the primary when
    /// everything is down.
    pub fn pick(&self) -> (r: (usize, &str))
        requires
            self@.wf(),
        ensures
            r.0 == self@.active,
            r.0 < self@.targets.len(),
            r.1@ == self@.targets[r.0 as int],
    {
        proof {
            lemma_first_healthy(self@.healthy);
        }
        (self.active, self.targets[self.active].as_str())
    }

    /// Whether a target is taken to be healthy.
    pub fn is_healthy(&self, i: usize) -> (r: bool)
        requires
            self@.wf(),
            i < self@.targets.len(),
        ensures
            r == self@.healthy[i as int],
    {
        self.healthy[i]
    }

    /// Marks a target down.
    pub fn mark_down(&mut self, i: usize) -> (r: Change)
        requires
            old(self)@.wf(),
            i < old(self)@.targets.len(),
        ensures
            final(self)@ == old(self)@.with_health(i as int, false),
            final(self)@.wf(),
            r == old(self)@.health_change(i as int, false),
            final(self).user_name() == old(self).user_name(),
    {
        if !self.healthy[i] {
            proof {
                assert(self.healthy@.update(i as int, false) =~= self.healthy@);
            }
            return Change { switch: None, rearm_secs: None };
        }
        self.healthy[i] = false;
        let switch = self.update_active();
        Change { switch, rearm_secs: self.cooldown_secs }
    }

    /// Marks a target up.
    pub fn mark_up(&mut self, i: usize) -> (r: Change)
        requires
            old(self)@.wf(),
            i < old(self)@.targets.len(),
        ensures
            final(self)@ == old(self)@.with_health(i as int, true),
            final(self)@.wf(),
            r == old(self)@.health_change(i as int, true),
            final(self).user_name() == old(self).user_name(),
    {
        if self.healthy[i] {
            proof {
                assert(self.healthy@.update(i as int, true) =~= self.healthy@);
            }
            return Change { switch: None, rearm_secs: None };
        }
        self.healthy[i] = true;
        let switch = self.update_active();
        Change { switch, rearm_secs: None }
    }

    /// Records a confirmed delivery to a target: real traffic reached it (a TCP
    /// connect succeeded, a UDP reply came back) or a probe did. A fresh confirmation
    /// also exempts the target from probing.
    pub fn confirm(&mut self, i: usize, now_ms: u64) -> (r: Change)
        requires
            old(self)@.wf(),
            i < old(self)@.targets.len(),
        ensures
            final(self)@ == old(self)@.with_confirmation(i as int, now_ms),
            final(self)@.wf(),
            r == old(self)@.health_change(i as int, true),
            final(self).user_name() == old(self).user_name(),
    {
        self.confirmed[i] = now_ms;
        self.mark_up(i)
    }

    /// Whether traffic cannot vouch for a target: it is down (waiting for recovery)
    /// or has had no confirmed delivery within the interval.
    pub fn needs_probe(&self, i: usize, interval_ms: u64, now_ms: u64) -> (r: bool)
        requires
            self@.wf(),
            i < self@.targets.len(),
        ensures
            r == self@.needs_probe(i as int, interval_ms, now_ms),
    {
        if !self.healthy[i] {
            return true;
        }
        now_ms.saturating_sub(self.confirmed[i]) >= interval_ms
    }

    /// Records what a probe of a target came to.
    pub fn probed(&mut self, i: usize, reached: bool, now_ms: u64) -> (r: Change)
        requires
            old(self)@.wf(),
            i < old(self)@.targets.len(),
        ensures
            final(self)@ == if reached {
                old(self)@.with_confirmation(i as int, now_ms)
            } else {
                old(self)@.with_health(i as int, false)
            },
            final(self)@.wf(),
            r == old(self)@.health_change(i as int, reached),
            final(self).user_name() == old(self).user_name(),
    {
        if reached {
            self.confirm(i, now_ms)
        } else {
            self.mark_down(i)
        }
    }

    /// Recomputes the active target from the health of all.
    fn update_active(&mut self) -> (r: Option<Switch>)
        requires
            old(self)@.targets.len() > 0,
            old(self)@.healthy.len() == old(self)@.targets.len(),
        ensures
            final(self)@ == (PoolState {
                active: first_healthy(old(self)@.healthy),
                ..old(self)@
            }),
            r == switch_to(old(self)@.active, old(self)@.healthy),
            final(self).user_name() == old(self).user_name(),
    {
        let to = find_first_healthy(&self.healthy);
        let from = self.active;
        if to == from {
            return None;
        }
        self.active = to;
        if !self.healthy[to] {
            Some(Switch::AllDown { from, to })
        } else if to > from {
            Some(Switch::Failover { from, to })
        } else {
            Some(Switch::Failback { from, to })
        }
    }
}

} // verus!
