//! What failover and failback promise.

use crate::dial::left_after;
use crate::pool::{
    first_healthy, lemma_first_healthy, lemma_first_healthy_unique, Change, PoolState, Switch,
};
use vstd::prelude::*;

verus! {

/// New connections go to the healthy target of highest priority; when all targets
/// are down, to the primary.
pub proof fn law_active_is_the_first_healthy(p: PoolState)
    requires
        p.wf(),
    ensures
        p.active < p.targets.len(),
        forall|j: int| 0 <= j < p.active ==> !(#[trigger] p.healthy[j]),
        p.healthy.contains(true) ==> p.healthy[p.active as int],
        !p.healthy.contains(true) ==> p.active == 0,
{
    lemma_first_healthy(p.healthy);
}

/// Marking targets up and down keeps a pool in order.
pub proof fn law_health_changes_keep_order(p: PoolState, i: int, up: bool, now_ms: u64)
    requires
        p.wf(),
        0 <= i < p.targets.len(),
    ensures
        p.with_health(i, up).wf(),
        p.with_confirmation(i, now_ms).wf(),
{
}

/// Once a target of higher priority than the active one recovers, connections
/// switch back to it.
pub proof fn law_recovery_switches_back(p: PoolState, i: int)
    requires
        p.wf(),
        0 <= i < p.active,
    ensures
        p.with_health(i, true).active == i,
        p.health_change(i, true).switch == Some(
            Switch::Failback { from: p.active as usize, to: i as usize },
        ),
{
    lemma_first_healthy(p.healthy);
    let healthy = p.healthy.update(i, true);
    assert forall|j: int| 0 <= j < i implies !(#[trigger] healthy[j]) by {
        assert(!p.healthy[j]);
    }
    lemma_first_healthy_unique(healthy, i);
    assert(!p.healthy[i]);
}

/// A recovery of lower priority than a healthy active target changes nothing for
/// new connections, and nobody is told.
pub proof fn law_lower_recovery_is_ignored(p: PoolState, i: int)
    requires
        p.wf(),
        p.active < i < p.targets.len(),
        p.healthy[p.active as int],
    ensures
        p.with_health(i, true).active == p.active,
        p.health_change(i, true).switch is None,
{
    lemma_first_healthy(p.healthy);
    let healthy = p.healthy.update(i, true);
    assert forall|j: int| 0 <= j < p.active implies !(#[trigger] healthy[j]) by {
        assert(!p.healthy[j]);
    }
    lemma_first_healthy_unique(healthy, p.active as int);
}

/// When the active target fails, connections move on to the next healthy one in
/// priority order.
pub proof fn law_failure_moves_on(p: PoolState, next: int)
    requires
        p.wf(),
        p.active < next < p.targets.len(),
        p.healthy[p.active as int],
        p.healthy[next],
        forall|j: int| p.active < j < next ==> !(#[trigger] p.healthy[j]),
    ensures
        p.with_health(p.active as int, false).active == next,
        p.health_change(p.active as int, false).switch == Some(
            Switch::Failover { from: p.active as usize, to: next as usize },
        ),
{
    lemma_first_healthy(p.healthy);
    let healthy = p.healthy.update(p.active as int, false);
    assert forall|j: int| 0 <= j < next implies !(#[trigger] healthy[j]) by {
        if j != p.active {
            assert(!p.healthy[j]);
        }
    }
    lemma_first_healthy_unique(healthy, next);
}

/// When the last healthy target fails, the primary is retried.
pub proof fn law_all_down_retries_the_primary(p: PoolState, i: int)
    requires
        p.wf(),
        0 <= i < p.targets.len(),
        forall|j: int| 0 <= j < p.targets.len() && j != i ==> !(#[trigger] p.healthy[j]),
    ensures
        p.with_health(i, false).active == 0,
{
    let healthy = p.healthy.update(i, false);
    lemma_first_healthy(healthy);
    assert(!healthy.contains(true)) by {
        if healthy.contains(true) {
            let k = choose|k: int| 0 <= k < healthy.len() && healthy[k];
            assert(p.healthy[k]);
        }
    }
}

/// Marking a target up undoes marking it down.
pub proof fn law_mark_up_undoes_mark_down(p: PoolState, i: int)
    requires
        p.wf(),
        0 <= i < p.targets.len(),
        p.healthy[i],
    ensures
        p.with_health(i, false).with_health(i, true) == p,
{
    assert(p.healthy.update(i, false).update(i, true) =~= p.healthy);
}

/// Marking a target the way it is marked already changes nothing, tells nobody and
/// starts no cooldown.
pub proof fn law_marking_again_is_silent(p: PoolState, i: int, up: bool)
    requires
        p.wf(),
        0 <= i < p.targets.len(),
        p.healthy[i] == up,
    ensures
        p.with_health(i, up) == p,
        p.health_change(i, up) == (Change { switch: None, rearm_secs: None }),
{
    assert(p.healthy.update(i, up) =~= p.healthy);
}

/// Those who follow the active target are told exactly when it changes.
pub proof fn law_told_exactly_when_active_changes(p: PoolState, i: int, up: bool)
    requires
        p.wf(),
        0 <= i < p.targets.len(),
    ensures
        p.health_change(i, up).switch is Some <==> p.with_health(i, up).active != p.active,
{
    if p.healthy[i] == up {
        assert(p.healthy.update(i, up) =~= p.healthy);
    }
}

/// A target that was reached less than an interval ago and not marked down since is
/// not probed; one that is down always is.
pub proof fn law_fresh_confirmation_exempts(
    p: PoolState,
    i: int,
    then_ms: u64,
    interval_ms: u64,
    now_ms: u64,
)
    requires
        p.wf(),
        0 <= i < p.targets.len(),
    ensures
        now_ms < then_ms + interval_ms && interval_ms > 0 ==> !p.with_confirmation(
            i,
            then_ms,
        ).needs_probe(i, interval_ms, now_ms),
        p.with_confirmation(i, then_ms).with_health(i, false).needs_probe(i, interval_ms, now_ms),
{
}

/// How many targets are healthy.
pub open spec fn healthy_count(healthy: Seq<bool>) -> nat
    decreases healthy.len(),
{
    if healthy.len() == 0 {
        0
    } else {
        healthy_count(healthy.drop_last()) + if healthy.last() {
            1nat
        } else {
            0
        }
    }
}

proof fn lemma_healthy_count(healthy: Seq<bool>, i: int)
    requires
        0 <= i < healthy.len(),
        healthy[i],
    ensures
        healthy_count(healthy.update(i, false)) == healthy_count(healthy) - 1,
    decreases healthy.len(),
{
    let after = healthy.update(i, false);
    if i == healthy.len() - 1 {
        assert(after.drop_last() =~= healthy.drop_last());
    } else {
        lemma_healthy_count(healthy.drop_last(), i);
        assert(after.drop_last() =~= healthy.drop_last().update(i, false));
    }
}

proof fn lemma_healthy_count_bounds(healthy: Seq<bool>)
    ensures
        healthy_count(healthy) <= healthy.len(),
        healthy_count(healthy) == 0 <==> !healthy.contains(true),
    decreases healthy.len(),
{
    if healthy.len() > 0 {
        let init = healthy.drop_last();
        lemma_healthy_count_bounds(init);
        if healthy.contains(true) {
            let k = choose|k: int| 0 <= k < healthy.len() && healthy[k];
            if k < init.len() {
                assert(init[k]);
            }
        }
        if init.contains(true) {
            let k = choose|k: int| 0 <= k < init.len() && init[k];
            assert(healthy[k]);
        }
        if healthy.last() {
            assert(healthy[healthy.len() - 1]);
        }
    }
}

/// The pool and the attempts left after `n` failures in a row, each at the target
/// that was active.
pub open spec fn failures(p: PoolState, left: nat, n: nat) -> (PoolState, nat)
    decreases n,
{
    if n == 0 {
        (p, left)
    } else {
        let (q, l) = failures(p, left, (n - 1) as nat);
        if l == 0 {
            (q, 0)
        } else {
            (q.with_health(q.active as int, false), left_after(l, q, q.active))
        }
    }
}

proof fn lemma_failures(p: PoolState, n: nat)
    requires
        p.wf(),
    ensures
        ({
            let (q, left) = failures(p, p.targets.len(), n);
            &&& q.wf()
            &&& q.targets == p.targets
            &&& left + n <= p.targets.len() || left == 0
            &&& healthy_count(q.healthy) <= left
        }),
    decreases n,
{
    if n == 0 {
        lemma_healthy_count_bounds(p.healthy);
    } else {
        lemma_failures(p, (n - 1) as nat);
        let (q, l) = failures(p, p.targets.len(), (n - 1) as nat);
        if l > 0 {
            let a = q.active as int;
            let after = q.healthy.update(a, false);
            lemma_first_healthy(q.healthy);
            lemma_first_healthy(after);
            lemma_healthy_count_bounds(q.healthy);
            lemma_healthy_count_bounds(after);
            if q.healthy[a] {
                lemma_healthy_count(q.healthy, a);
            } else {
                assert(after =~= q.healthy);
            }
        }
    }
}

/// An attempt whose connections all fail ends after at most as many tries as there
/// are targets, and not before every target is down: no healthy target is passed
/// over.
pub proof fn law_every_healthy_target_is_tried(p: PoolState, n: nat)
    requires
        p.wf(),
    ensures
        n >= p.targets.len() ==> failures(p, p.targets.len(), n).1 == 0,
        failures(p, p.targets.len(), n).1 == 0 ==> !failures(
            p,
            p.targets.len(),
            n,
        ).0.healthy.contains(true),
{
    lemma_failures(p, n);
    lemma_healthy_count_bounds(failures(p, p.targets.len(), n).0.healthy);
}

/// How an attempt with `left` tries goes, where `reachable` says which targets answer:
/// the pool that it leaves, and the target that it reached, if any.
pub open spec fn attempt(p: PoolState, left: nat, reachable: Seq<bool>, now_ms: u64) -> (
    PoolState,
    Option<nat>,
)
    decreases left,
{
    if left == 0 {
        (p, None)
    } else if reachable[p.active as int] {
        (p.with_confirmation(p.active as int, now_ms), Some(p.active))
    } else {
        attempt(
            p.with_health(p.active as int, false),
            left_after(left, p, p.active),
            reachable,
            now_ms,
        )
    }
}

/// The pool once a target was reached and those before it failed.
pub open spec fn reached(p: PoolState, i: int, now_ms: u64) -> PoolState {
    PoolState {
        healthy: Seq::new(
            p.healthy.len(),
            |j: int|
                if j < i {
                    false
                } else if j == i {
                    true
                } else {
                    p.healthy[j]
                },
        ),
        active: i as nat,
        confirmed: p.confirmed.update(i, now_ms),
        ..p
    }
}

/// The pool once every target failed.
pub open spec fn all_down(p: PoolState) -> PoolState {
    PoolState { healthy: Seq::new(p.healthy.len(), |j: int| false), active: 0, ..p }
}

/// The active target is healthy and does not answer: the next try is made with one
/// healthy target less.
proof fn lemma_failed_try(p: PoolState, left: nat, reachable: Seq<bool>)
    requires
        p.wf(),
        left > 0,
        reachable.len() == p.targets.len(),
        p.healthy[p.active as int],
        !reachable[p.active as int],
    ensures
        ({
            let q = p.with_health(p.active as int, false);
            &&& q.wf()
            &&& healthy_count(q.healthy) == healthy_count(p.healthy) - 1
            &&& healthy_count(q.healthy) > 0 ==> q.active > p.active && left_after(
                left,
                p,
                p.active,
            ) == left - 1
            &&& p.active > 0 && healthy_count(q.healthy) == 0 ==> q.active == 0 && left_after(
                left,
                p,
                p.active,
            ) == left - 1
            &&& p.active == 0 && healthy_count(q.healthy) == 0 ==> left_after(left, p, p.active)
                == 0
        }),
{
    let a = p.active as int;
    let after = p.healthy.update(a, false);
    lemma_first_healthy(p.healthy);
    lemma_first_healthy(after);
    lemma_healthy_count(p.healthy, a);
    lemma_healthy_count_bounds(after);
    if after.contains(true) {
        let f = first_healthy(after) as int;
        assert(after[f]);
        if f <= a {
            assert(f != a);
            assert(!p.healthy[f]);
        }
    }
}

proof fn lemma_attempt_succeeds(
    p: PoolState,
    left: nat,
    reachable: Seq<bool>,
    now_ms: u64,
    i: int,
)
    requires
        p.wf(),
        reachable.len() == p.targets.len(),
        healthy_count(p.healthy) <= left,
        0 <= i < p.targets.len(),
        p.healthy[i] && reachable[i],
        forall|j: int| 0 <= j < i && p.healthy[j] ==> !(#[trigger] reachable[j]),
    ensures
        attempt(p, left, reachable, now_ms) == (reached(p, i, now_ms), Some(i as nat)),
    decreases left,
{
    let a = p.active as int;
    lemma_first_healthy(p.healthy);
    lemma_healthy_count_bounds(p.healthy);
    assert(p.healthy.contains(true));
    assert(a <= i) by {
        if i < a {
            assert(!p.healthy[i]);
        }
    }
    if a == i {
        let q = p.with_confirmation(i, now_ms);
        assert(p.healthy.update(i, true) =~= p.healthy);
        assert(q.healthy =~= reached(p, i, now_ms).healthy) by {
            assert forall|j: int| 0 <= j < i implies !(#[trigger] p.healthy[j]) by {
            }
        }
    } else {
        assert(!reachable[a]);
        lemma_failed_try(p, left, reachable);
        let q = p.with_health(a, false);
        assert(q.healthy[i]);
        assert(q.healthy.contains(true));
        lemma_healthy_count_bounds(q.healthy);
        assert forall|j: int| 0 <= j < i && q.healthy[j] implies !(#[trigger] reachable[j]) by {
            assert(p.healthy[j]);
        }
        lemma_attempt_succeeds(q, (left - 1) as nat, reachable, now_ms, i);
        assert(reached(q, i, now_ms).healthy =~= reached(p, i, now_ms).healthy);
    }
}

proof fn lemma_attempt_in_vain(p: PoolState, left: nat, reachable: Seq<bool>, now_ms: u64)
    requires
        p.wf(),
        reachable.len() == p.targets.len(),
        healthy_count(p.healthy) <= left,
        !p.healthy[0] && reachable[0] ==> healthy_count(p.healthy) < left,
        forall|j: int| 0 <= j < p.targets.len() && p.healthy[j] ==> !(#[trigger] reachable[j]),
    ensures
        attempt(p, left, reachable, now_ms) == if reachable[0] {
            (reached(all_down(p), 0, now_ms), Some(0nat))
        } else {
            (all_down(p), None)
        },
    decreases left,
{
    let a = p.active as int;
    lemma_first_healthy(p.healthy);
    lemma_healthy_count_bounds(p.healthy);
    if p.healthy.contains(true) {
        assert(p.healthy[a]);
        assert(!reachable[a]);
        lemma_failed_try(p, left, reachable);
        let q = p.with_health(a, false);
        assert forall|j: int| 0 <= j < q.targets.len() && q.healthy[j] implies !(
        #[trigger] reachable[j]) by {
            assert(p.healthy[j]);
        }
        assert(all_down(q) == all_down(p));
        if a == 0 && healthy_count(q.healthy) == 0 {
            lemma_none_healthy(q);
            assert(attempt(q, 0, reachable, now_ms) == (q, None::<nat>));
        } else {
            if a > 0 {
                assert(!p.healthy[0]);
            }
            lemma_attempt_in_vain(q, (left - 1) as nat, reachable, now_ms);
        }
    } else {
        lemma_none_healthy(p);
        if left > 0 {
            assert(p.healthy.update(0, false) =~= p.healthy);
            let up = p.with_confirmation(0, now_ms);
            lemma_first_healthy_unique(up.healthy, 0);
            assert(left_after(left, p, p.active) == 0);
            assert(attempt(p, 0, reachable, now_ms) == (p, None::<nat>));
            assert(up.healthy =~= reached(all_down(p), 0, now_ms).healthy);
        }
    }
}

proof fn lemma_none_healthy(p: PoolState)
    requires
        p.wf(),
        healthy_count(p.healthy) == 0,
    ensures
        p == all_down(p),
{
    lemma_healthy_count_bounds(p.healthy);
    lemma_first_healthy(p.healthy);
    assert forall|j: int| 0 <= j < p.healthy.len() implies !(#[trigger] p.healthy[j]) by {
        if p.healthy[j] {
            assert(p.healthy.contains(true));
        }
    }
    assert(p.healthy =~= all_down(p).healthy);
}

/// An attempt ends at the healthy target of highest priority that answers. The targets
/// before it are down then, and those behind it are as they were.
pub proof fn law_attempt_ends_at_the_first_to_answer(
    p: PoolState,
    reachable: Seq<bool>,
    now_ms: u64,
    i: int,
)
    requires
        p.wf(),
        reachable.len() == p.targets.len(),
        0 <= i < p.targets.len(),
        p.healthy[i] && reachable[i],
        forall|j: int| 0 <= j < i && p.healthy[j] ==> !(#[trigger] reachable[j]),
    ensures
        attempt(p, p.targets.len(), reachable, now_ms) == (
            reached(p, i, now_ms),
            Some(i as nat),
        ),
{
    lemma_healthy_count_bounds(p.healthy);
    lemma_attempt_succeeds(p, p.targets.len(), reachable, now_ms, i);
}

/// Where no healthy target answers, the primary is tried though it is down: if it
/// answers, it is the only healthy target then; else the attempt ends with every target
/// down.
pub proof fn law_downed_primary_is_the_last_resort(
    p: PoolState,
    reachable: Seq<bool>,
    now_ms: u64,
)
    requires
        p.wf(),
        reachable.len() == p.targets.len(),
        forall|j: int| 0 <= j < p.targets.len() && p.healthy[j] ==> !(#[trigger] reachable[j]),
    ensures
        attempt(p, p.targets.len(), reachable, now_ms) == if reachable[0] {
            (reached(all_down(p), 0, now_ms), Some(0nat))
        } else {
            (all_down(p), None)
        },
{
    lemma_healthy_count_bounds(p.healthy);
    if !p.healthy[0] {
        let up = p.healthy.update(0, true);
        lemma_healthy_count_bounds(up);
        lemma_healthy_count(up, 0);
        assert(up.update(0, false) =~= p.healthy);
    }
    lemma_attempt_in_vain(p, p.targets.len(), reachable, now_ms);
}

/// No target before the active one is healthy, and the active one is, unless none is:
/// then it is the primary.
pub open spec fn is_active(healthy: Seq<bool>, active: nat) -> bool {
    &&& active < healthy.len()
    &&& forall|j: int| 0 <= j < active ==> !(#[trigger] healthy[j])
    &&& healthy[active as int] || active == 0 && forall|j: int|
        0 <= j < healthy.len() ==> !(#[trigger] healthy[j])
}

proof fn lemma_is_active(healthy: Seq<bool>)
    requires
        healthy.len() > 0,
    ensures
        is_active(healthy, first_healthy(healthy)),
{
    lemma_first_healthy(healthy);
    if !healthy.contains(true) {
        assert forall|j: int| 0 <= j < healthy.len() implies !(#[trigger] healthy[j]) by {
            if healthy[j] {
                assert(healthy.contains(true));
            }
        }
    }
}

/// Marking a target up or down changes the health of that target alone, and with it
/// which target is active; targets, cooldown and confirmations stay. A confirmation
/// marks up in the same way, and notes the time for that target alone.
pub proof fn law_marks_concern_one_target(p: PoolState, i: int, up: bool, now_ms: u64, j: int)
    requires
        p.healthy.len() == p.targets.len(),
        p.confirmed.len() == p.targets.len(),
        0 <= i < p.targets.len(),
        0 <= j < p.targets.len(),
    ensures
        ({
            let q = p.with_health(i, up);
            &&& q.targets == p.targets
            &&& q.cooldown_secs == p.cooldown_secs
            &&& q.confirmed == p.confirmed
            &&& q.healthy.len() == p.targets.len()
            &&& q.healthy[i] == up
            &&& j != i ==> q.healthy[j] == p.healthy[j]
            &&& is_active(q.healthy, q.active)
        }),
        ({
            let q = p.with_confirmation(i, now_ms);
            &&& q.targets == p.targets
            &&& q.cooldown_secs == p.cooldown_secs
            &&& q.confirmed.len() == p.targets.len()
            &&& q.confirmed[i] == now_ms
            &&& j != i ==> q.confirmed[j] == p.confirmed[j]
            &&& q.healthy.len() == p.targets.len()
            &&& q.healthy[i]
            &&& j != i ==> q.healthy[j] == p.healthy[j]
            &&& is_active(q.healthy, q.active)
        }),
{
    lemma_is_active(p.healthy.update(i, up));
    lemma_is_active(p.healthy.update(i, true));
}

/// What is told of a mark: where the active target moved from and to, and whether all
/// targets are down, one of lower priority takes over or one of higher priority is back;
/// nothing where it did not move. A cooldown starts exactly when a healthy target goes
/// down.
pub proof fn law_changes_are_told_as_they_are(p: PoolState, i: int, up: bool)
    requires
        p.wf(),
        0 <= i < p.targets.len(),
    ensures
        ({
            let q = p.with_health(i, up);
            match p.health_change(i, up).switch {
                None => q.active == p.active,
                Some(Switch::AllDown { from, to }) => {
                    &&& from == p.active && to == q.active && from != to
                    &&& forall|j: int| 0 <= j < q.targets.len() ==> !(#[trigger] q.healthy[j])
                },
                Some(Switch::Failover { from, to }) => {
                    &&& from == p.active && to == q.active && from < to
                    &&& q.healthy[to as int]
                },
                Some(Switch::Failback { from, to }) => {
                    &&& from == p.active && to == q.active && to < from
                    &&& q.healthy[to as int]
                },
            }
        }),
        p.healthy[i] && !up ==> p.health_change(i, up).rearm_secs == p.cooldown_secs,
        !p.healthy[i] || up ==> p.health_change(i, up).rearm_secs is None,
{
    lemma_is_active(p.healthy);
    lemma_is_active(p.healthy.update(i, up));
    if p.healthy[i] == up {
        assert(p.healthy.update(i, up) =~= p.healthy);
    }
}

/// A target is probed exactly if it is down or its last confirmation is an interval old
/// or older, whatever the interval; one that was confirmed more recently is not.
pub proof fn law_silent_targets_are_probed(p: PoolState, i: int, interval_ms: u64, now_ms: u64)
    requires
        0 <= i < p.healthy.len(),
        0 <= i < p.confirmed.len(),
    ensures
        !p.healthy[i] ==> p.needs_probe(i, interval_ms, now_ms),
        now_ms >= p.confirmed[i] + interval_ms ==> p.needs_probe(i, interval_ms, now_ms),
        p.healthy[i] && interval_ms > 0 && now_ms < p.confirmed[i] + interval_ms
            ==> !p.needs_probe(i, interval_ms, now_ms),
        interval_ms == 0 ==> p.needs_probe(i, interval_ms, now_ms),
{
}

/// A failed try uses up one of the tries that are left, or all of them where the target
/// that failed is still the active one: then everything is down.
pub proof fn law_failed_tries_are_used_up(p: PoolState, left: nat, i: int)
    requires
        p.wf(),
        left > 0,
        0 <= i < p.targets.len(),
    ensures
        p.with_health(i, false).active != i ==> left_after(left, p, i as nat) == left - 1,
        p.with_health(i, false).active == i ==> left_after(left, p, i as nat) == 0 && forall|j: int|
            0 <= j < p.targets.len() ==> !(#[trigger] p.with_health(i, false).healthy[j]),
{
    lemma_is_active(p.healthy.update(i, false));
}

} // verus!
