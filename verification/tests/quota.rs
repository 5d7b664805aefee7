use ports_box::clock::Clock;
use ports_box::quota::{Direction, SavedUsage, UserQuota};

/// Arbitrary but fixed hour id so tests never straddle a real boundary.
const H: i64 = 500_000;

fn quota(limit: Option<u64>) -> UserQuota {
    UserQuota::new_at("a".into(), limit, SavedUsage::default(), H)
}

#[test]
fn usage_is_max_of_directions() {
    let mut quota = quota(Some(100));
    assert!(quota.try_consume_at(60, Direction::Upload, H));
    // Download up to the upload level doesn't add billed usage.
    assert!(quota.try_consume_at(60, Direction::Download, H));
    assert_eq!(quota.used(), 60);
    assert_eq!(quota.remaining(), Some(40));
}

#[test]
fn consume_until_exhausted() {
    let mut quota = quota(Some(100));
    assert!(quota.try_consume_at(60, Direction::Download, H));
    assert!(!quota.is_exhausted());
    // Download reaches the limit: exhausted, upload level irrelevant.
    assert!(!quota.try_consume_at(40, Direction::Download, H));
    assert!(quota.is_exhausted());
    assert_eq!(quota.used(), 100);
    assert_eq!(quota.remaining(), Some(0));
    // Once exhausted nothing more is counted.
    assert!(!quota.try_consume_at(1, Direction::Upload, H));
    assert_eq!(quota.used(), 100);
    assert_eq!(quota.upload(), 0);
}

#[test]
fn starts_exhausted_when_restored_over_limit() {
    let saved = SavedUsage {
        upload: 120,
        download: 30,
        settled: 120,
        ..Default::default()
    };
    let quota = UserQuota::new_at("a".into(), Some(100), saved, H);
    assert!(quota.is_exhausted());
    assert_eq!(quota.remaining(), Some(0));
}

#[test]
fn raised_limit_reenables() {
    // Simulates a config edit + restart: same usage, bigger limit.
    let saved = SavedUsage {
        upload: 80,
        download: 30,
        settled: 80,
        ..Default::default()
    };
    let mut quota = UserQuota::new_at("a".into(), Some(200), saved, H);
    assert!(!quota.is_exhausted());
    assert!(quota.try_consume_at(10, Direction::Upload, H));
    assert_eq!(quota.used(), 90);
    assert_eq!(quota.remaining(), Some(110));
}

#[test]
fn unlimited_tracks_but_never_exhausts() {
    let saved = SavedUsage {
        upload: u64::MAX / 2,
        settled: u64::MAX / 2,
        ..Default::default()
    };
    let mut quota = UserQuota::new_at("a".into(), None, saved, H);
    assert!(!quota.is_exhausted());
    assert!(quota.try_consume_at(1 << 40, Direction::Download, H));
    assert!(!quota.is_exhausted());
    assert_eq!(quota.used(), u64::MAX / 2 + (1 << 40));
    assert_eq!(quota.remaining(), None);
}

#[test]
fn rollover_settles_hourly_max() {
    let mut quota = quota(None);
    assert!(quota.try_consume_at(60, Direction::Upload, H));
    assert!(quota.try_consume_at(40, Direction::Download, H));
    assert_eq!(quota.used(), 60);
    // Next hour: the previous bucket settles at its max, the new one
    // accumulates independently.
    assert!(quota.try_consume_at(10, Direction::Upload, H + 1));
    assert!(quota.try_consume_at(30, Direction::Download, H + 1));
    assert_eq!(quota.hour_used(), 30);
    assert_eq!(quota.used(), 90); // 60 settled + 30 current
    // Lifetime totals are unaffected by settlement.
    assert_eq!((quota.upload(), quota.download()), (70, 70));
}

#[test]
fn rollover_never_decreases_used() {
    let mut quota = quota(Some(100));
    assert!(quota.try_consume_at(70, Direction::Download, H));
    let before = quota.used();
    // A zero-byte consume in the next hour forces the rollover.
    assert!(quota.try_consume_at(0, Direction::Upload, H + 1));
    assert_eq!(quota.used(), before);
    assert_eq!(quota.hour_used(), 0);
    // Exhaustion carries across hours: settled only ever grows.
    assert!(!quota.try_consume_at(30, Direction::Upload, H + 1));
    assert!(quota.is_exhausted());
    assert!(!quota.try_consume_at(1, Direction::Upload, H + 2));
}

#[test]
fn restore_same_hour_resumes_bucket() {
    let saved = SavedUsage {
        upload: 100,
        download: 40,
        settled: 60,
        hour_upload: 40,
        hour_download: 20,
        hour_id: H,
    };
    let quota = UserQuota::new_at("a".into(), Some(1000), saved, H);
    assert_eq!(quota.used(), 100); // 60 settled + max(40, 20)
    assert_eq!(quota.hour_used(), 40);
    assert_eq!(quota.snapshot(), saved);
}

#[test]
fn restore_cross_hour_settles() {
    let saved = SavedUsage {
        upload: 100,
        download: 40,
        settled: 60,
        hour_upload: 40,
        hour_download: 20,
        hour_id: H - 3,
    };
    let quota = UserQuota::new_at("a".into(), Some(1000), saved, H);
    assert_eq!(quota.used(), 100); // identical value, now fully settled
    assert_eq!(quota.hour_used(), 0);
    assert_eq!(quota.snapshot().hour_id, H);
}

#[test]
fn usage_is_billed_hour_by_hour() {
    let mut quota = quota(None);
    let trace = [
        (0, Direction::Upload, 5),
        (0, Direction::Download, 9),
        (0, Direction::Upload, 1),
        (3, Direction::Upload, 20),
        (3, Direction::Download, 19),
        (4, Direction::Download, 2),
    ];
    for (hour, direction, bytes) in trace {
        assert!(quota.try_consume_at(bytes, direction, H + hour));
    }
    // max(6, 9) + max(20, 19) + max(0, 2)
    assert_eq!(quota.used(), 31);
    assert_eq!(quota.upload(), 26);
    assert_eq!(quota.download(), 30);
}

#[test]
fn settlement_moves_usage_and_nothing_else() {
    let mut quota = quota(Some(100));
    quota.try_consume_at(60, Direction::Upload, H);
    quota.try_consume_at(40, Direction::Download, H);
    // A transfer of nothing settles a new hour.
    assert!(quota.try_consume_at(0, Direction::Upload, H + 1));
    let settled = quota.snapshot();
    assert_eq!(
        settled,
        SavedUsage {
            upload: 60,
            download: 40,
            settled: 60,
            hour_upload: 0,
            hour_download: 0,
            hour_id: H + 1,
        }
    );
    assert_eq!((quota.used(), quota.hour_used()), (60, 0));
    assert_eq!(quota.remaining(), Some(40));
    assert!(!quota.is_exhausted());
    // Once more in the same hour changes nothing.
    assert!(quota.try_consume_at(0, Direction::Download, H + 1));
    assert_eq!(quota.snapshot(), settled);
}

#[test]
fn settling_twice_is_settling_once() {
    let mut quota = quota(Some(100));
    quota.try_consume_at(60, Direction::Upload, H);
    quota.try_consume_at(40, Direction::Download, H);
    let before = quota.snapshot();
    quota.settle_to(H);
    assert_eq!(quota.snapshot(), before);
    for _ in 0..2 {
        quota.settle_to(H + 1);
        assert_eq!(
            quota.snapshot(),
            SavedUsage {
                settled: 60,
                hour_upload: 0,
                hour_download: 0,
                hour_id: H + 1,
                ..before
            }
        );
        assert_eq!((quota.used(), quota.hour_used()), (60, 0));
        assert!(!quota.is_exhausted());
    }
    // An exhausted quota stays so.
    assert!(!quota.try_consume_at(40, Direction::Upload, H + 1));
    quota.settle_to(H + 2);
    assert!(quota.is_exhausted());
    assert_eq!(quota.used(), 100);
}

#[test]
fn totals_are_plain_sums() {
    let saved = SavedUsage { upload: 7, download: 11, ..Default::default() };
    let mut quota = UserQuota::new_at("a".into(), None, saved, H);
    for (hour, direction, bytes) in [
        (0, Direction::Upload, 5),
        (2, Direction::Download, 9),
        (1, Direction::Upload, 1),
        (3, Direction::Upload, 20),
    ] {
        assert!(quota.try_consume_at(bytes, direction, H + hour));
    }
    assert_eq!((quota.upload(), quota.download()), (7 + 26, 11 + 9));
}

#[test]
fn restart_keeps_usage_in_any_hour() {
    let mut before = quota(Some(1000));
    before.try_consume_at(60, Direction::Upload, H);
    before.try_consume_at(40, Direction::Download, H + 1);
    for hour in [H + 1, H + 2, H + 100] {
        let after = UserQuota::new_at("a".into(), Some(1000), before.snapshot(), hour);
        assert_eq!(after.used(), before.used());
        assert_eq!(after.remaining(), before.remaining());
        assert_eq!(after.is_exhausted(), before.is_exhausted());
    }
}

#[test]
fn restarts_do_not_show_in_the_bill() {
    let trace = [
        (1, Direction::Upload, 5),
        (1, Direction::Download, 9),
        (2, Direction::Upload, 7),
        (5, Direction::Download, 3),
    ];
    let mut steady = quota(Some(1000));
    steady.try_consume_at(60, Direction::Upload, H);
    let mut restarted = UserQuota::new_at("a".into(), Some(1000), steady.snapshot(), H + 1);
    for (hour, direction, bytes) in trace {
        assert!(steady.try_consume_at(bytes, direction, H + hour));
        assert!(restarted.try_consume_at(bytes, direction, H + hour));
        assert_eq!(restarted.snapshot(), steady.snapshot());
        // Once more, in the middle of an hour.
        restarted =
            UserQuota::new_at("a".into(), Some(1000), restarted.snapshot(), H + hour);
    }
    assert_eq!(restarted.used(), 60 + 9 + 7 + 3);
}

#[test]
fn a_zero_limit_starts_exhausted() {
    let quota = quota(Some(0));
    assert!(quota.is_exhausted());
    assert_eq!(quota.remaining(), Some(0));
}

#[test]
fn lifetime_totals_wrap_around() {
    let saved = SavedUsage { upload: u64::MAX, ..Default::default() };
    let mut quota = UserQuota::new_at("a".into(), None, saved, H);
    assert!(quota.try_consume_at(3, Direction::Upload, H));
    assert_eq!(quota.upload(), 2);
    assert_eq!(quota.hour_used(), 3);
}

#[test]
fn usage_that_cannot_be_told_is_noticed() {
    let saved = SavedUsage { settled: u64::MAX - 10, ..Default::default() };
    assert!(saved.can_tell_used());
    let limited = UserQuota::new_at("a".into(), Some(u64::MAX), saved, H);
    assert!(limited.can_consume_at(10, Direction::Upload, H));
    assert!(!limited.can_consume_at(11, Direction::Upload, H));
    let mut unlimited = UserQuota::new_at("a".into(), None, saved, H);
    assert!(unlimited.can_consume_at(11, Direction::Upload, H));
    assert!(unlimited.can_tell_used());
    assert!(unlimited.try_consume_at(11, Direction::Upload, H));
    assert!(!unlimited.can_tell_used());
    let odd = SavedUsage { settled: u64::MAX, hour_upload: 1, ..Default::default() };
    assert!(!odd.can_tell_used());
}

#[test]
fn names_and_limits_are_kept() {
    let mut quota = UserQuota::new_at("alice".into(), Some(7), SavedUsage::default(), H);
    quota.try_consume_at(3, Direction::Upload, H + 1);
    assert_eq!(quota.name(), "alice");
    assert_eq!(quota.name, "alice");
    assert_eq!(quota.limit(), Some(7));
    assert_eq!(quota.limit, Some(7));
}

#[test]
fn hours_follow_the_clock() {
    let unix = 1_700_000_000;
    let mut clock = Clock::with_offset(3600);
    let hour = clock.current_hour_id(unix);
    let mut quota = UserQuota::new("a".into(), Some(10), SavedUsage::default(), &clock, unix);
    assert_eq!(quota.snapshot().hour_id, hour);
    assert!(quota.try_consume(4, Direction::Upload, &mut clock, unix));
    assert_eq!(quota.hour_used(), 4);
    // Within the hour the clock is left alone.
    assert_eq!(clock.current_hour_id(unix), hour);
    // An hour later the bucket is a new one.
    let later = unix + 3600;
    assert!(quota.try_consume(1, Direction::Upload, &mut clock, later));
    assert_eq!(quota.hour_used(), 1);
    assert_eq!(quota.used(), 5);
    assert_eq!(quota.snapshot().hour_id, hour + 1);
}

#[test]
fn exhaustion_stops_traffic_for_good() {
    let unix = 1_700_000_000;
    let mut clock = Clock::with_offset(0);
    let mut quota = UserQuota::new("a".into(), Some(10), SavedUsage::default(), &clock, unix);
    assert!(!quota.try_consume(20, Direction::Upload, &mut clock, unix));
    assert!(quota.is_exhausted());
    assert!(!quota.try_consume(0, Direction::Download, &mut clock, unix + 7200));
    assert_eq!(quota.used(), 20);
}
