use ports_box::clock::Clock;
use ports_box::quota::{Direction, SavedUsage, UserQuota};
use ports_box::state::{
    collect_rows, flush_plan, migrate_row, needs_migration, next_checkpoint_secs, saved_usage,
    usage_row, FlushEvent, FlushLedger, FlushPlan, UsageRow,
};

/// Fixed hour id so tests never straddle a real boundary.
const H: i64 = 500_000;

/// A table in memory: writing a row replaces the row of the same user.
fn upsert(table: &mut Vec<UsageRow>, rows: &[UsageRow]) {
    for row in rows {
        table.retain(|r| r.user != row.user);
        table.push(UsageRow { user: row.user.clone(), usage: row.usage });
    }
}

/// Flushes users to a table; tells how many rows were written.
fn flush(ledger: &mut FlushLedger, table: &mut Vec<UsageRow>, users: &[&UserQuota]) -> usize {
    let rows: Vec<UsageRow> = users.iter().map(|u| usage_row(u)).collect();
    let dirty = ledger.dirty(&rows);
    upsert(table, &dirty);
    ledger.record(&dirty);
    dirty.len()
}

fn user(name: &str, limit: Option<u64>) -> UserQuota {
    UserQuota::new_at(name.into(), limit, SavedUsage::default(), H)
}

#[test]
fn roundtrip_and_upsert() {
    let mut table = vec![];
    let mut ledger = FlushLedger::new();
    let mut alice = user("alice", Some(1000));
    let mut bob = user("bob", Some(1000));
    alice.try_consume_at(123, Direction::Upload, H);
    alice.try_consume_at(456, Direction::Download, H);
    // A rollover mid-run: settled and the new bucket both persist.
    alice.try_consume_at(50, Direction::Upload, H + 1);
    bob.try_consume_at(7, Direction::Download, H);
    assert_eq!(flush(&mut ledger, &mut table, &[&alice, &bob]), 2);
    // Second flush upserts rather than duplicating.
    alice.try_consume_at(1, Direction::Upload, H + 1);
    assert_eq!(flush(&mut ledger, &mut table, &[&alice, &bob]), 1);

    // Load as a fresh process would.
    assert_eq!(table.len(), 2);
    let loaded = collect_rows(table);
    assert_eq!(loaded.len(), 2);
    assert_eq!(
        saved_usage(&loaded, "alice"),
        SavedUsage {
            upload: 174,
            download: 456,
            settled: 456,
            hour_upload: 51,
            hour_download: 0,
            hour_id: H + 1,
        }
    );
    assert_eq!(
        saved_usage(&loaded, "bob"),
        SavedUsage {
            download: 7,
            hour_download: 7,
            hour_id: H,
            ..Default::default()
        }
    );
    assert_eq!(saved_usage(&loaded, "carol"), SavedUsage::default());
}

#[test]
fn legacy_schema_migrates() {
    let names = |names: &[&str]| -> Vec<String> { names.iter().map(|n| n.to_string()).collect() };
    assert!(needs_migration(&names(&["user", "upload_bytes", "download_bytes", "updated_at"])));
    // Lifetime usage settles once under the old max() reading.
    let migrated = migrate_row(123, 456);
    assert_eq!(
        migrated,
        SavedUsage {
            upload: 123,
            download: 456,
            settled: 456,
            hour_upload: 0,
            hour_download: 0,
            hour_id: 0,
        }
    );
    assert_eq!(migrate_row(9, 2).settled, 9);
    // Migration is a one-shot.
    assert!(!needs_migration(&names(&["user", "upload_bytes", "settled_bytes", "hour_id"])));
    let mut alice = UserQuota::new_at("alice".into(), None, migrated, H);
    assert_eq!(alice.used(), 456);
    alice.try_consume_at(10, Direction::Upload, H);
    assert_eq!(usage_row(&alice).usage.settled, 456);
}

#[test]
fn flush_skips_unchanged_users() {
    let mut table = vec![];
    let mut ledger = FlushLedger::new();
    let mut alice = user("alice", None);
    alice.try_consume_at(5, Direction::Upload, H);
    assert_eq!(flush(&mut ledger, &mut table, &[&alice]), 1);
    // An idle flush must not touch the row.
    assert_eq!(flush(&mut ledger, &mut table, &[&alice]), 0);
    // New traffic makes the row dirty again.
    alice.try_consume_at(1, Direction::Upload, H);
    assert_eq!(flush(&mut ledger, &mut table, &[&alice]), 1);
    assert_eq!(table[0].usage.upload, 6);
}

#[test]
fn a_flush_adds_its_users_and_no_others() {
    let old = UsageRow {
        user: "gone".to_string(),
        usage: SavedUsage { upload: 3, settled: 3, ..Default::default() },
    };
    let mut table = vec![old];
    let mut ledger = FlushLedger::new();
    // A user without traffic gets a row as well.
    let idle = user("idle", None);
    assert_eq!(flush(&mut ledger, &mut table, &[&idle]), 1);
    let mut names: Vec<&str> = table.iter().map(|row| row.user.as_str()).collect();
    names.sort();
    assert_eq!(names, vec!["gone", "idle"]);
    let loaded = collect_rows(table);
    assert_eq!(saved_usage(&loaded, "gone").settled, 3);
}

#[test]
fn only_dirty_rows_are_written_in_order() {
    let ledger_rows = |n: u64| -> Vec<UsageRow> {
        ["a", "b", "c"]
            .iter()
            .map(|name| UsageRow {
                user: name.to_string(),
                usage: SavedUsage { upload: n, ..Default::default() },
            })
            .collect()
    };
    let mut ledger = FlushLedger::new();
    ledger.record(&ledger_rows(1));
    let mut rows = ledger_rows(1);
    rows[0].usage.upload = 2;
    rows[2].usage.hour_id = 5;
    let dirty = ledger.dirty(&rows);
    let names: Vec<&str> = dirty.iter().map(|r| r.user.as_str()).collect();
    assert_eq!(names, vec!["a", "c"]);
    // What was not written is dirty still.
    assert_eq!(ledger.dirty(&rows).len(), 2);
    ledger.record(&dirty);
    assert_eq!(ledger.dirty(&rows).len(), 0);
}

#[test]
fn restart_from_a_flush_keeps_usage() {
    let mut table = vec![];
    let mut ledger = FlushLedger::new();
    let mut alice = user("alice", Some(1000));
    alice.try_consume_at(30, Direction::Download, H);
    flush(&mut ledger, &mut table, &[&alice]);
    alice.try_consume_at(20, Direction::Upload, H + 1);
    flush(&mut ledger, &mut table, &[&alice]);
    let loaded = collect_rows(table);
    let again =
        UserQuota::new_at("alice".into(), Some(1000), saved_usage(&loaded, "alice"), H + 9);
    assert_eq!(again.used(), 50);
    assert_eq!(again.remaining(), Some(950));
}

#[test]
fn hours_and_shutdown_are_made_durable() {
    assert_eq!(flush_plan(FlushEvent::Tick), FlushPlan { checkpoint: false, stop: false });
    assert_eq!(flush_plan(FlushEvent::HourTurned), FlushPlan { checkpoint: true, stop: false });
    assert_eq!(flush_plan(FlushEvent::Shutdown), FlushPlan { checkpoint: true, stop: true });
}

#[test]
fn checkpoints_come_shortly_after_the_hour() {
    let clock = Clock::with_offset(1800);
    assert_eq!(next_checkpoint_secs(&clock, 0), 1803);
    assert_eq!(next_checkpoint_secs(&clock, 1799), 4);
    assert_eq!(next_checkpoint_secs(&clock, 1800), 3603);
}
