use ports_box::pool::TargetPool;
use ports_box::probe::{ProbeAction, Prober};

/// Runs the prober at a standing clock until it sleeps; tells what it checked.
fn round(prober: &mut Prober, now_ms: u64) -> (Vec<(usize, usize)>, u64) {
    let mut checks = vec![];
    loop {
        match prober.step(now_ms) {
            ProbeAction::Proceed => {}
            ProbeAction::Check { pool, target } => checks.push((pool, target)),
            ProbeAction::SleepUntil { at_ms } => return (checks, at_ms),
        }
    }
}

#[test]
fn pools_are_swept_when_due() {
    let mut prober = Prober::new(vec![2, 3], vec![50, 80], 1000);
    assert_eq!(round(&mut prober, 1000), (vec![], 1050));
    // The first pool is due; it is due again an interval later.
    assert_eq!(round(&mut prober, 1050), (vec![(0, 0), (0, 1)], 1080));
    assert_eq!(round(&mut prober, 1080), (vec![(1, 0), (1, 1), (1, 2)], 1100));
    // Both are due.
    assert_eq!(
        round(&mut prober, 1200),
        (vec![(0, 0), (0, 1), (1, 0), (1, 1), (1, 2)], 1250)
    );
    // Waking early checks nothing.
    assert_eq!(round(&mut prober, 1249), (vec![], 1250));
}

#[test]
fn an_interval_starts_when_the_sweep_ends() {
    let mut prober = Prober::new(vec![2], vec![50], 0);
    assert_eq!(prober.step(0), ProbeAction::SleepUntil { at_ms: 50 });
    assert_eq!(prober.step(50), ProbeAction::Proceed);
    assert_eq!(prober.step(50), ProbeAction::Check { pool: 0, target: 0 });
    assert_eq!(prober.step(5050), ProbeAction::Check { pool: 0, target: 1 });
    assert_eq!(prober.step(10050), ProbeAction::Proceed);
    assert_eq!(prober.step(10050), ProbeAction::Proceed);
    assert_eq!(prober.step(10050), ProbeAction::SleepUntil { at_ms: 10100 });
}

/// Lets the prober run over a pool for a while; `reached` says which targets answer.
fn probe(pool: &mut TargetPool, interval_ms: u64, until_ms: u64, reached: &[bool]) -> usize {
    let mut prober = Prober::new(vec![pool.len()], vec![interval_ms], 0);
    let mut now_ms = 0;
    let mut probes = 0;
    while now_ms <= until_ms {
        match prober.step(now_ms) {
            ProbeAction::Proceed => {}
            ProbeAction::SleepUntil { at_ms } => now_ms = at_ms,
            ProbeAction::Check { target, .. } => {
                if pool.needs_probe(target, interval_ms, now_ms) {
                    probes += 1;
                    pool.probed(target, reached[target], now_ms);
                }
            }
        }
    }
    probes
}

#[test]
fn probe_recovers_downed_target() {
    let mut pool =
        TargetPool::new("a".into(), vec!["p:1".into(), "127.0.0.1:1".into()], None);
    pool.mark_down(0);
    assert_eq!(pool.pick().0, 1);
    probe(&mut pool, 50, 50, &[true, false]);
    assert_eq!(pool.pick().0, 0);
    assert!(pool.is_healthy(0));
}

#[test]
fn probe_marks_idle_unreachable_target_down() {
    // No traffic ever confirms this dead target, so the prober is the
    // only thing that can notice it.
    let mut pool = TargetPool::new("a".into(), vec!["127.0.0.1:1".into()], None);
    probe(&mut pool, 50, 50, &[false]);
    assert!(!pool.is_healthy(0));
}

#[test]
fn fresh_traffic_confirmation_skips_probe() {
    // The target is unreachable, but traffic keeps confirming it, so
    // the prober must leave it alone.
    let mut pool = TargetPool::new("a".into(), vec!["127.0.0.1:1".into()], None);
    let mut prober = Prober::new(vec![1], vec![100], 0);
    for k in 0..15 {
        let now_ms = 20 * k;
        pool.confirm(0, now_ms);
        for (_, target) in round(&mut prober, now_ms).0 {
            assert!(!pool.needs_probe(target, 100, now_ms));
        }
    }
    assert!(pool.is_healthy(0));
}

#[test]
fn a_reached_target_is_probed_at_every_interval() {
    let mut pool = TargetPool::new("a".into(), vec!["p:1".into(), "f:1".into()], None);
    assert_eq!(probe(&mut pool, 50, 200, &[true, true]), 8);
    assert_eq!(pool.pick().0, 0);
}
