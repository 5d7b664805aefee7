use ports_box::clock::Clock;
use ports_box::quota::{Direction, SavedUsage, UserQuota};
use ports_box::tcp::{on_chunk, ChunkAction, KEEPALIVE_INTERVAL_SECS, KEEPALIVE_TIME_SECS};

#[test]
fn chunks_are_forwarded_until_the_quota_is_gone() {
    let now = 1_700_000_000;
    let mut clock = Clock::with_offset(0);
    let mut quota = UserQuota::new("a".into(), Some(100), SavedUsage::default(), &clock, now);
    let action = on_chunk(&mut quota, 60, Direction::Upload, &mut clock, now);
    assert_eq!(action, ChunkAction::Forward);
    let action = on_chunk(&mut quota, 60, Direction::Download, &mut clock, now);
    assert_eq!(action, ChunkAction::Forward);
    // The end of a stream counts nothing.
    let action = on_chunk(&mut quota, 0, Direction::Upload, &mut clock, now);
    assert_eq!(action, ChunkAction::HalfClose);
    assert_eq!(quota.used(), 60);
    let action = on_chunk(&mut quota, 40, Direction::Upload, &mut clock, now);
    assert_eq!(action, ChunkAction::Abort);
    let action = on_chunk(&mut quota, 1, Direction::Download, &mut clock, now);
    assert_eq!(action, ChunkAction::Abort);
    assert_eq!(quota.used(), 100);
    assert_eq!(quota.download(), 60);
    // Even then a stream may end.
    let action = on_chunk(&mut quota, 0, Direction::Download, &mut clock, now);
    assert_eq!(action, ChunkAction::HalfClose);
}

#[test]
fn keepalive_probes_after_a_minute() {
    assert_eq!(KEEPALIVE_TIME_SECS, 60);
    assert_eq!(KEEPALIVE_INTERVAL_SECS, 10);
}
