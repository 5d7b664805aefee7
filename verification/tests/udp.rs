use ports_box::clock::Clock;
use ports_box::net::{IpAddress, SocketAddress};
use ports_box::pool::{Switch, TargetPool};
use ports_box::quota::{Direction, SavedUsage, UserQuota};
use ports_box::udp::{
    has_moved, on_packet, on_relay_event, on_send_failure, PacketAction, RelayAction, RelayEvent,
    Session, SessionTable, IDLE_TIMEOUT_MS,
};

const NOW: i64 = 1_700_000_000;

fn peer(n: u32) -> SocketAddress {
    SocketAddress::new(IpAddress::V4(n), 4000)
}

fn quota(limit: u64) -> (UserQuota, Clock) {
    let clock = Clock::with_offset(0);
    let quota = UserQuota::new("a".into(), Some(limit), SavedUsage::default(), &clock, NOW);
    (quota, clock)
}

fn pool() -> TargetPool {
    TargetPool::new("a".into(), vec!["p:1".into(), "f:1".into()], None)
}

#[test]
fn sessions_belong_to_clients() {
    let mut table = SessionTable::new();
    assert_eq!(table.get(peer(1)), None);
    let first = table.open(peer(1), 0);
    let second = table.open(peer(2), 1);
    assert_eq!(first, Session { id: 0, target_index: 0 });
    assert_eq!(second, Session { id: 1, target_index: 1 });
    assert_eq!(table.get(peer(1)), Some(first));
    assert_eq!(table.get(peer(2)), Some(second));
    assert!(table.close(peer(1), first.id));
    assert_eq!(table.get(peer(1)), None);
    assert_eq!(table.get(peer(2)), Some(second));
    assert!(!table.close(peer(1), first.id));
}

#[test]
fn a_late_end_leaves_the_new_session_alone() {
    let mut table = SessionTable::new();
    let old = table.open(peer(1), 0);
    let new = table.open(peer(1), 1);
    assert!(old.id != new.id);
    assert!(!table.close(peer(1), old.id));
    assert_eq!(table.get(peer(1)), Some(new));
    assert!(table.close(peer(1), new.id));
    assert_eq!(table.get(peer(1)), None);
}

#[test]
fn packets_are_counted_and_routed() {
    let (mut quota, mut clock) = quota(10);
    let mut table = SessionTable::new();
    let action = on_packet(&mut quota, &table, peer(1), 4, &mut clock, NOW);
    assert_eq!(action, PacketAction::Open);
    let session = table.open(peer(1), 0);
    let action = on_packet(&mut quota, &table, peer(1), 4, &mut clock, NOW);
    assert_eq!(action, PacketAction::Send { session });
    assert_eq!(quota.upload(), 8);
    // The packet that exhausts the quota is dropped, and so are later ones.
    let action = on_packet(&mut quota, &table, peer(1), 4, &mut clock, NOW);
    assert_eq!(action, PacketAction::Drop);
    assert_eq!(quota.upload(), 12);
    let action = on_packet(&mut quota, &table, peer(2), 4, &mut clock, NOW);
    assert_eq!(action, PacketAction::Drop);
    assert_eq!(quota.upload(), 12);
}

#[test]
fn a_failed_send_sheds_the_session() {
    let mut pool = pool();
    let mut table = SessionTable::new();
    let session = table.open(peer(1), 0);
    let change = on_send_failure(&mut pool, &mut table, peer(1), session);
    assert_eq!(change.switch, Some(Switch::Failover { from: 0, to: 1 }));
    assert_eq!(table.get(peer(1)), None);
    assert_eq!(pool.pick().0, 1);
}

/// What comes of an event in a session that was last active at 1000 ms.
fn relay(event: RelayEvent, limit: u64, now_ms: u64) -> (RelayAction, UserQuota, TargetPool) {
    let (mut quota, mut clock) = quota(limit);
    let mut pool = pool();
    pool.mark_down(1);
    let session = Session { id: 0, target_index: 1 };
    let (action, _) = on_relay_event(
        event, session, &mut pool, &mut quota, &mut clock, NOW, 1000, now_ms, 77,
    );
    (action, quota, pool)
}

#[test]
fn replies_are_delivered_counted_and_confirm() {
    let (action, quota, pool) = relay(RelayEvent::Reply { bytes: 5 }, 10, 1000);
    assert_eq!(action, RelayAction::Deliver);
    assert_eq!(quota.download(), 5);
    assert_eq!(quota.upload(), 0);
    assert!(pool.is_healthy(1));
    assert!(!pool.needs_probe(1, 10, 86));
    // The reply that exhausts the quota is not delivered.
    let (action, quota, _) = relay(RelayEvent::Reply { bytes: 10 }, 10, 1000);
    assert_eq!(action, RelayAction::End);
    assert!(quota.is_exhausted());
}

#[test]
fn silence_ends_only_idle_sessions() {
    assert_eq!(IDLE_TIMEOUT_MS, 60_000);
    let (action, quota, pool) = relay(RelayEvent::Silence, 10, 60_999);
    assert_eq!(action, RelayAction::Wait);
    assert_eq!(quota.used(), 0);
    assert!(!pool.is_healthy(1));
    assert_eq!(relay(RelayEvent::Silence, 10, 61_000).0, RelayAction::End);
    assert_eq!(relay(RelayEvent::Silence, 10, 0).0, RelayAction::Wait);
}

#[test]
fn other_events_end_a_session() {
    for event in [RelayEvent::QuotaExhausted, RelayEvent::ActiveMoved, RelayEvent::Failed] {
        let (action, quota, pool) = relay(event, 10, 1000);
        assert_eq!(action, RelayAction::End);
        assert_eq!(quota.used(), 0);
        assert!(!pool.is_healthy(1));
    }
}

#[test]
fn sessions_follow_the_active_target() {
    let session = Session { id: 3, target_index: 1 };
    assert!(has_moved(0, session));
    assert!(!has_moved(1, session));
}

#[test]
fn both_directions_share_the_quota() {
    let (mut quota, mut clock) = quota(10);
    let mut pool = pool();
    let mut table = SessionTable::new();
    let session = table.open(peer(1), 0);
    on_packet(&mut quota, &table, peer(1), 6, &mut clock, NOW);
    on_relay_event(
        RelayEvent::Reply { bytes: 7 },
        session, &mut pool, &mut quota, &mut clock, NOW, 0, 0, 0,
    );
    assert_eq!(quota.used(), 7);
    assert!(!quota.try_consume(3, Direction::Download, &mut clock, NOW));
}
