use ports_box::dial::{connect_failure, connect_timeout, session_failure, Dial, DialStep};
use ports_box::pool::{Change, Switch, TargetPool, CONNECT_TIMEOUT_SECS};

fn pool(cooldown_secs: Option<u64>) -> TargetPool {
    TargetPool::new(
        "a".into(),
        vec!["p:1".into(), "f1:1".into(), "f2:1".into()],
        cooldown_secs,
    )
}

#[test]
fn failover_and_failback_follow_priority() {
    let mut pool = pool(None);
    assert_eq!(pool.pick().0, 0);

    pool.mark_down(0);
    assert_eq!(pool.pick().1, "f1:1");
    pool.mark_down(1);
    assert_eq!(pool.pick().1, "f2:1");

    // A lower-priority recovery doesn't move the active target back up.
    pool.mark_up(1);
    assert_eq!(pool.pick().1, "f1:1");
    // The primary recovering does.
    pool.mark_up(0);
    assert_eq!(pool.pick().1, "p:1");
}

#[test]
fn all_down_falls_back_to_primary() {
    let mut pool = pool(None);
    for i in 0..pool.len() {
        pool.mark_down(i);
    }
    assert_eq!(pool.pick().0, 0);
}

#[test]
fn watch_broadcasts_changes() {
    let mut pool = pool(None);
    let change = pool.mark_down(0);
    assert_eq!(change.switch, Some(Switch::Failover { from: 0, to: 1 }));
    // Marking an already-down target again doesn't re-notify.
    let change = pool.mark_down(0);
    assert_eq!(change, Change { switch: None, rearm_secs: None });
}

#[test]
fn cooldown_rearms_downed_target() {
    let mut pool = pool(Some(30));
    let change = pool.mark_down(0);
    assert_eq!(pool.pick().0, 1);
    assert_eq!(change.rearm_secs, Some(30));
    // The cooldown has passed.
    let change = pool.mark_up(0);
    assert_eq!(pool.pick().0, 0);
    assert_eq!(change.switch, Some(Switch::Failback { from: 1, to: 0 }));
    assert_eq!(change.rearm_secs, None);
}

#[test]
fn cooldown_starts_once() {
    let mut pool = pool(Some(30));
    assert_eq!(pool.mark_down(1).rearm_secs, Some(30));
    assert_eq!(pool.mark_down(1).rearm_secs, None);
}

#[test]
fn confirm_freshness_gates_probing() {
    let mut pool = pool(None);
    let interval = 50;
    // Pool creation counts as the initial confirmation.
    assert!(!pool.needs_probe(0, interval, 0));
    assert!(pool.needs_probe(0, interval, 60));
    pool.confirm(0, 60);
    assert!(!pool.needs_probe(0, interval, 60));
    assert!(!pool.needs_probe(0, interval, 109));
    assert!(pool.needs_probe(0, interval, 110));
    // A downed target always needs probing, however fresh.
    pool.mark_down(0);
    assert!(pool.needs_probe(0, interval, 60));
}

#[test]
fn switches_tell_what_happened() {
    let mut pool = pool(None);
    assert_eq!(pool.mark_down(2).switch, None);
    assert_eq!(pool.mark_down(0).switch, Some(Switch::Failover { from: 0, to: 1 }));
    assert_eq!(pool.mark_down(1).switch, Some(Switch::AllDown { from: 1, to: 0 }));
    // The primary is active already, so its recovery moves nobody.
    assert_eq!(pool.mark_up(0).switch, None);
    assert_eq!(pool.pick(), (0, "p:1"));
    // With everything down, whoever recovers first takes over.
    pool.mark_down(0);
    assert_eq!(pool.mark_up(2).switch, Some(Switch::Failover { from: 0, to: 2 }));
    assert_eq!(pool.mark_up(1).switch, Some(Switch::Failback { from: 2, to: 1 }));
}

#[test]
fn probes_confirm_or_mark_down() {
    let mut pool = pool(None);
    pool.mark_down(0);
    let change = pool.probed(0, true, 1000);
    assert_eq!(change.switch, Some(Switch::Failback { from: 1, to: 0 }));
    assert!(pool.is_healthy(0));
    assert!(!pool.needs_probe(0, 500, 1400));
    let change = pool.probed(0, false, 1500);
    assert_eq!(change.switch, Some(Switch::Failover { from: 0, to: 1 }));
    assert!(!pool.is_healthy(0));
}

#[test]
fn targets_and_user_are_kept() {
    let pool = pool(None);
    assert_eq!(pool.user(), "a");
    assert_eq!(pool.len(), 3);
    assert_eq!(pool.target(2), "f2:1");
    assert_eq!(CONNECT_TIMEOUT_SECS, 5);
}

#[test]
fn connect_success_recovers_pinned_primary() {
    let mut pool =
        TargetPool::new("a".into(), vec!["p:1".into(), "127.0.0.1:1".into()], None);
    // All targets down pins the active index to the primary; a real
    // connection succeeding must mark it healthy again.
    pool.mark_down(0);
    pool.mark_down(1);
    assert_eq!(pool.pick().0, 0);
    assert!(!pool.is_healthy(0));

    let dial = Dial::new(&pool);
    match dial.next(&pool) {
        DialStep::Try { index, target } => {
            assert_eq!((index, target.as_str()), (0, "p:1"));
            pool.confirm(index, 5);
        }
        DialStep::GiveUp { message } => panic!("{message}"),
    }

    assert_eq!(pool.pick().0, 0);
    assert!(pool.is_healthy(0));
}

/// Dials with connections that all fail; tells which targets were tried.
fn dial_in_vain(pool: &mut TargetPool) -> (Vec<usize>, String) {
    let mut tried = vec![];
    let mut dial = Dial::new(pool);
    loop {
        match dial.next(pool) {
            DialStep::Try { index, target } => {
                tried.push(index);
                dial.failed(pool, index, connect_failure(&target, "refused"));
            }
            DialStep::GiveUp { message } => return (tried, message),
        }
    }
}

#[test]
fn dialling_falls_through_the_priority_list() {
    let mut all_up = pool(None);
    let (tried, message) = dial_in_vain(&mut all_up);
    assert_eq!(tried, vec![0, 1, 2]);
    assert_eq!(message, "connect to f2:1 failed: refused");
    // With everything down only the primary is tried.
    let (tried, message) = dial_in_vain(&mut all_up);
    assert_eq!(tried, vec![0]);
    assert_eq!(message, "connect to p:1 failed: refused");
    // A target known to be down is skipped; its try goes to the primary.
    let mut one_down = pool(None);
    one_down.mark_down(1);
    assert_eq!(dial_in_vain(&mut one_down).0, vec![0, 2, 0]);
}

/// Dials where `reachable` says which targets answer; tells which one was reached.
fn dial(pool: &mut TargetPool, reachable: [bool; 3]) -> Option<usize> {
    let mut dial = Dial::new(pool);
    loop {
        match dial.next(pool) {
            DialStep::Try { index, .. } if reachable[index] => {
                pool.confirm(index, 9);
                return Some(index);
            }
            DialStep::Try { index, target } => {
                dial.failed(pool, index, connect_timeout(&target));
            }
            DialStep::GiveUp { .. } => return None,
        }
    }
}

fn health(pool: &TargetPool) -> Vec<bool> {
    (0..pool.len()).map(|i| pool.is_healthy(i)).collect()
}

#[test]
fn dialling_ends_at_the_first_to_answer() {
    let mut fresh = pool(None);
    assert_eq!(dial(&mut fresh, [false, true, true]), Some(1));
    assert_eq!(health(&fresh), vec![false, true, true]);
    // A target that is down is not tried while a healthy one answers.
    assert_eq!(dial(&mut fresh, [true, false, true]), Some(2));
    assert_eq!(health(&fresh), vec![false, false, true]);
    // Targets behind the one that answers are left alone.
    let mut partly = pool(None);
    partly.mark_down(2);
    assert_eq!(dial(&mut partly, [true, false, false]), Some(0));
    assert_eq!(health(&partly), vec![true, true, false]);
}

#[test]
fn a_downed_primary_is_the_last_resort() {
    let mut down = pool(None);
    down.mark_down(0);
    assert_eq!(dial(&mut down, [true, false, false]), Some(0));
    assert_eq!(health(&down), vec![true, false, false]);
    // Of the targets that are down, only the primary is tried.
    down.mark_down(0);
    assert_eq!(dial(&mut down, [false, true, true]), None);
    assert_eq!(health(&down), vec![false, false, false]);
    assert_eq!(down.pick().0, 0);
}

#[test]
fn dial_messages() {
    assert_eq!(connect_failure("h:1", "refused"), "connect to h:1 failed: refused");
    assert_eq!(connect_timeout("h:1"), "connect to h:1 timed out");
    assert_eq!(session_failure("h:1", "no route"), "session to h:1 failed: no route");
}
