//! What is written to the usage database, and when.
//!
//! Counters live in memory and are flushed periodically. A ledger of what was
//! flushed last lets an idle server write nothing at all.

use crate::clock::{secs_to_hour, Clock};
use crate::quota::{larger, no_usage, restored, QuotaState, SavedUsage, UserQuota};
use crate::text::same_text;
use vstd::hash_map::StringHashMap;
use vstd::prelude::*;
use vstd::string::*;

verus! {

/// A row of the usage table.
#[derive(Debug)]
pub struct UsageRow {
    pub user: String,
    pub usage: SavedUsage,
}

/// The name and the counters of a row.
pub open spec fn row_view(row: UsageRow) -> (Seq<char>, SavedUsage) {
    (row.user@, row.usage)
}

/// The names and the counters of some rows.
pub open spec fn row_views(rows: Seq<UsageRow>) -> Seq<(Seq<char>, SavedUsage)> {
    rows.map_values(|row: UsageRow| row_view(row))
}

/// A row is the one that the ledger has for its user.
pub open spec fn is_flushed(
    row: (Seq<char>, SavedUsage),
    last: Map<Seq<char>, SavedUsage>,
) -> bool {
    last.dom().contains(row.0) && last[row.0] == row.1
}

/// The rows that differ from what was flushed last, in order.
pub open spec fn dirty_rows(
    rows: Seq<(Seq<char>, SavedUsage)>,
    last: Map<Seq<char>, SavedUsage>,
) -> Seq<(Seq<char>, SavedUsage)>
    decreases rows.len(),
{
    if rows.len() == 0 {
        seq![]
    } else if is_flushed(rows.last(), last) {
        dirty_rows(rows.drop_last(), last)
    } else {
        dirty_rows(rows.drop_last(), last).push(rows.last())
    }
}

/// A table once some rows are written to it, each in the place of the row of the
/// same user.
pub open spec fn upserted(
    table: Map<Seq<char>, SavedUsage>,
    rows: Seq<(Seq<char>, SavedUsage)>,
) -> Map<Seq<char>, SavedUsage>
    decreases rows.len(),
{
    if rows.len() == 0 {
        table
    } else {
        upserted(table, rows.drop_last()).insert(rows.last().0, rows.last().1)
    }
}

/// The row of a user as it is now.
pub fn usage_row(quota: &UserQuota) -> (r: UsageRow)
    ensures
        row_view(r) == (quota.user_name(), quota@.saved()),
{
    UsageRow { user: quota.name().to_owned(), usage: quota.snapshot() }
}

/// The table that some rows make up.
pub fn collect_rows(rows: Vec<UsageRow>) -> (r: StringHashMap<SavedUsage>)
    ensures
        r@ == upserted(Map::empty(), row_views(rows@)),
{
    let mut table: StringHashMap<SavedUsage> = StringHashMap::new();
    let ghost views = row_views(rows@);
    let mut i: usize = 0;
    while i < rows.len()
        invariant
            i <= rows@.len(),
            views == row_views(rows@),
            table@ == upserted(Map::empty(), views.take(i as int)),
        decreases rows@.len() - i,
    {
        proof {
            assert(views.take(i as int + 1).drop_last() =~= views.take(i as int));
        }
        table.insert(rows[i].user.clone(), rows[i].usage);
        i = i + 1;
    }
    proof {
        assert(views.take(views.len() as int) =~= views);
    }
    table
}

/// What is persisted of a user; nothing is as good as zero.
pub open spec fn usage_of(table: Map<Seq<char>, SavedUsage>, name: Seq<char>) -> SavedUsage {
    if table.dom().contains(name) {
        table[name]
    } else {
        no_usage()
    }
}

/// What is persisted of a user; nothing is as good as zero.
pub fn saved_usage(table: &StringHashMap<SavedUsage>, name: &str) -> (r: SavedUsage)
    ensures
        r == usage_of(table@, name@),
{
    match table.get(name) {
        Some(usage) => *usage,
        None => SavedUsage::default(),
    }
}

/// The last flushed row of each user.
pub struct FlushLedger {
    last: StringHashMap<SavedUsage>,
}

impl View for FlushLedger {
    type V = Map<Seq<char>, SavedUsage>;

    closed spec fn view(&self) -> Map<Seq<char>, SavedUsage> {
        self.last@
    }
}

impl FlushLedger {
    /// A ledger of nothing.
    pub fn new() -> (r: FlushLedger)
        ensures
            r@ == Map::<Seq<char>, SavedUsage>::empty(),
    {
        FlushLedger { last: StringHashMap::new() }
    }

    /// The rows that have to be written: those that differ from what was flushed
    /// last.
    pub fn dirty(&self, rows: &Vec<UsageRow>) -> (r: Vec<UsageRow>)
        ensures
            row_views(r@) == dirty_rows(row_views(rows@), self@),
    {
        let ghost views = row_views(rows@);
        let mut r: Vec<UsageRow> = Vec::new();
        let mut i: usize = 0;
        while i < rows.len()
            invariant
                i <= rows@.len(),
                views == row_views(rows@),
                row_views(r@) == dirty_rows(views.take(i as int), self@),
            decreases rows@.len() - i,
        {
            let ghost before = r@;
            proof {
                assert(views.take(i as int + 1).drop_last() =~= views.take(i as int));
                assert(views.take(i as int + 1).last() == row_view(rows@[i as int]));
            }
            let flushed: bool = match self.last.get(rows[i].user.as_str()) {
                Some(usage) => *usage == rows[i].usage,
                None => false,
            };
            if !flushed {
                r.push(UsageRow { user: rows[i].user.clone(), usage: rows[i].usage });
                proof {
                    assert(row_views(r@) =~= row_views(before).push(row_view(rows@[i as int])));
                }
            }
            i = i + 1;
        }
        proof {
            assert(views.take(views.len() as int) =~= views);
        }
        r
    }

    /// Notes that rows were written.
    pub fn record(&mut self, rows: &Vec<UsageRow>)
        ensures
            final(self)@ == upserted(old(self)@, row_views(rows@)),
    {
        let ghost views = row_views(rows@);
        let mut i: usize = 0;
        while i < rows.len()
            invariant
                i <= rows@.len(),
                views == row_views(rows@),
                self@ == upserted(old(self)@, views.take(i as int)),
            decreases rows@.len() - i,
        {
            proof {
                assert(views.take(i as int + 1).drop_last() =~= views.take(i as int));
            }
            self.last.insert(rows[i].user.clone(), rows[i].usage);
            i = i + 1;
        }
        proof {
            assert(views.take(views.len() as int) =~= views);
        }
    }
}

/// Whether a usage table with these columns is from before hourly billing.
pub fn needs_migration(columns: &Vec<String>) -> (r: bool)
    ensures
        r == !exists|i: int| 0 <= i < columns@.len() && (#[trigger] columns@[i])@ == "settled_bytes"@,
{
    let mut i: usize = 0;
    while i < columns.len()
        invariant
            i <= columns@.len(),
            forall|j: int| 0 <= j < i ==> (#[trigger] columns@[j])@ != "settled_bytes"@,
        decreases columns@.len() - i,
    {
        if same_text(columns[i].as_str(), "settled_bytes") {
            return false;
        }
        i = i + 1;
    }
    true
}

/// What a row from before hourly billing becomes: its lifetime usage, the larger
/// direction, settles once. Hour 0 is long over, so that the empty buckets settle
/// as nothing.
pub open spec fn migrated(upload: u64, download: u64) -> SavedUsage {
    SavedUsage {
        upload,
        download,
        settled: larger(upload, download),
        hour_upload: 0,
        hour_download: 0,
        hour_id: 0,
    }
}

/// Brings a row from before hourly billing up to date.
pub fn migrate_row(upload: u64, download: u64) -> (r: SavedUsage)
    ensures
        r == migrated(upload, download),
{
    let settled: u64 = if upload >= download {
        upload
    } else {
        download
    };
    SavedUsage { upload, download, settled, hour_upload: 0, hour_download: 0, hour_id: 0 }
}

/// What wakes the flusher.
#[derive(Debug, Clone, Copy, PartialEq, Eq, Structural)]
pub enum FlushEvent {
    /// The flush interval passed.
    Tick,
    /// An hour was completed.
    HourTurned,
    /// The program is about to end.
    Shutdown,
}

/// What the flusher does, after it has flushed.
#[derive(Debug, Clone, Copy, PartialEq, Eq, Structural)]
pub struct FlushPlan {
    /// Make everything that was flushed durable across power loss.
    pub checkpoint: bool,
    /// Then end.
    pub stop: bool,
}

/// Every event flushes; completed hours and the end of the program are made durable.
pub fn flush_plan(event: FlushEvent) -> (r: FlushPlan)
    ensures
        r.checkpoint == (event is HourTurned || event is Shutdown),
        r.stop == (event is Shutdown),
{
    match event {
        FlushEvent::Tick => FlushPlan { checkpoint: false, stop: false },
        FlushEvent::HourTurned => FlushPlan { checkpoint: true, stop: false },
        FlushEvent::Shutdown => FlushPlan { checkpoint: true, stop: true },
    }
}

/// The seconds to the next checkpoint: a few past the next local hour boundary, so
/// that active users have settled by then.
pub fn next_checkpoint_secs(clock: &Clock, unix_secs: i64) -> (r: u64)
    requires
        clock.can_tell(unix_secs),
    ensures
        r == secs_to_hour(unix_secs + clock.offset()) + 3,
{
    clock.secs_until_next_hour(unix_secs) + 3
}

/// No user has two rows.
pub open spec fn users_distinct(rows: Seq<(Seq<char>, SavedUsage)>) -> bool {
    forall|i: int, j: int|
        0 <= i < j < rows.len() ==> (#[trigger] rows[i]).0 != (#[trigger] rows[j]).0
}

proof fn lemma_dirty_rows(rows: Seq<(Seq<char>, SavedUsage)>, last: Map<Seq<char>, SavedUsage>)
    ensures
        forall|k: int|
            0 <= k < dirty_rows(rows, last).len() ==> rows.contains(
                #[trigger] dirty_rows(rows, last)[k],
            ) && !is_flushed(dirty_rows(rows, last)[k], last),
        forall|i: int|
            0 <= i < rows.len() && !is_flushed(#[trigger] rows[i], last) ==> dirty_rows(
                rows,
                last,
            ).contains(rows[i]),
        users_distinct(rows) ==> users_distinct(dirty_rows(rows, last)),
    decreases rows.len(),
{
    if rows.len() > 0 {
        let init = rows.drop_last();
        let d = dirty_rows(init, last);
        let e = dirty_rows(rows, last);
        lemma_dirty_rows(init, last);
        assert forall|k: int| 0 <= k < e.len() implies rows.contains(#[trigger] e[k]) && !is_flushed(
            e[k],
            last,
        ) by {
            if k < d.len() {
                assert(e[k] == d[k]);
                let i = choose|i: int| 0 <= i < init.len() && init[i] == d[k];
                assert(rows[i] == d[k]);
            } else {
                assert(rows[rows.len() - 1] == e[k]);
            }
        }
        assert forall|i: int| 0 <= i < rows.len() && !is_flushed(
            #[trigger] rows[i],
            last,
        ) implies e.contains(rows[i]) by {
            if i < init.len() {
                assert(init[i] == rows[i]);
                let k = choose|k: int| 0 <= k < d.len() && d[k] == rows[i];
                assert(e[k] == rows[i]);
            } else {
                assert(e[e.len() - 1] == rows[i]);
            }
        }
        if users_distinct(rows) {
            assert(users_distinct(init)) by {
                assert forall|i: int, j: int| 0 <= i < j < init.len() implies (#[trigger] init[i]).0
                    != (#[trigger] init[j]).0 by {
                    assert(rows[i].0 != rows[j].0);
                }
            }
            assert forall|i: int, j: int| 0 <= i < j < e.len() implies (#[trigger] e[i]).0 != (
            #[trigger] e[j]).0 by {
                assert(e[i] == d[i]);
                if j < d.len() {
                    assert(e[j] == d[j]);
                    assert(d[i].0 != d[j].0);
                } else {
                    let k = choose|k: int| 0 <= k < init.len() && init[k] == d[i];
                    assert(rows[k].0 != rows[rows.len() - 1].0);
                }
            }
        }
    }
}

proof fn lemma_upserted(
    table: Map<Seq<char>, SavedUsage>,
    rows: Seq<(Seq<char>, SavedUsage)>,
    name: Seq<char>,
)
    requires
        users_distinct(rows),
    ensures
        forall|i: int|
            0 <= i < rows.len() && (#[trigger] rows[i]).0 == name ==> upserted(
                table,
                rows,
            ).dom().contains(name) && upserted(table, rows)[name] == rows[i].1,
        (forall|i: int| 0 <= i < rows.len() ==> (#[trigger] rows[i]).0 != name) ==> {
            &&& upserted(table, rows).dom().contains(name) == table.dom().contains(name)
            &&& upserted(table, rows)[name] == table[name]
        },
    decreases rows.len(),
{
    if rows.len() > 0 {
        let init = rows.drop_last();
        assert(users_distinct(init)) by {
            assert forall|i: int, j: int| 0 <= i < j < init.len() implies (#[trigger] init[i]).0 != (
            #[trigger] init[j]).0 by {
                assert(rows[i].0 != rows[j].0);
            }
        }
        lemma_upserted(table, init, name);
        assert forall|i: int| 0 <= i < rows.len() && (#[trigger] rows[i]).0 == name implies upserted(
            table,
            rows,
        ).dom().contains(name) && upserted(table, rows)[name] == rows[i].1 by {
            if i < init.len() {
                assert(init[i].0 == name);
                assert(rows[i].0 != rows[rows.len() - 1].0);
            }
        }
        if forall|i: int| 0 <= i < rows.len() ==> (#[trigger] rows[i]).0 != name {
            assert forall|i: int| 0 <= i < init.len() implies (#[trigger] init[i]).0 != name by {
                assert(rows[i].0 != name);
            }
            assert(rows[rows.len() - 1].0 != name);
        }
    }
}

/// Some row is that of the named user.
pub open spec fn has_row(rows: Seq<(Seq<char>, SavedUsage)>, name: Seq<char>) -> bool {
    exists|i: int| 0 <= i < rows.len() && (#[trigger] rows[i]).0 == name
}

/// The table holds what the ledger says was flushed.
pub open spec fn ledger_holds(
    table: Map<Seq<char>, SavedUsage>,
    last: Map<Seq<char>, SavedUsage>,
) -> bool {
    forall|n: Seq<char>|
        #[trigger] last.dom().contains(n) ==> table.dom().contains(n) && table[n] == last[n]
}

/// The ledger stays true: it starts out empty, and rows that are written and recorded
/// are in the table and in the ledger alike.
pub proof fn law_ledger_stays_true(
    table: Map<Seq<char>, SavedUsage>,
    last: Map<Seq<char>, SavedUsage>,
    rows: Seq<(Seq<char>, SavedUsage)>,
)
    ensures
        ledger_holds(table, Map::empty()),
        ledger_holds(table, last) ==> ledger_holds(upserted(table, rows), upserted(last, rows)),
    decreases rows.len(),
{
    if rows.len() > 0 {
        law_ledger_stays_true(table, last, rows.drop_last());
        if ledger_holds(table, last) {
            let t = upserted(table, rows.drop_last());
            let l = upserted(last, rows.drop_last());
            assert forall|n: Seq<char>| #[trigger]
                upserted(last, rows).dom().contains(n) implies upserted(table, rows).dom().contains(n)
                && upserted(table, rows)[n] == upserted(last, rows)[n] by {
                if n != rows.last().0 {
                    assert(l.dom().contains(n));
                    assert(t.dom().contains(n));
                }
            }
        }
    }
}

/// A flush brings a table up to date: where the table holds at least what the ledger
/// says, writing only the dirty rows leaves it with the current counters of every
/// user, and the ledger with the same; everybody else's row stays, and nobody else
/// gets one. So the counters that are loaded after a restart are those of the last
/// flush.
pub proof fn law_flush_persists_every_user(
    table: Map<Seq<char>, SavedUsage>,
    last: Map<Seq<char>, SavedUsage>,
    rows: Seq<(Seq<char>, SavedUsage)>,
    name: Seq<char>,
)
    requires
        users_distinct(rows),
        ledger_holds(table, last),
    ensures
        forall|i: int|
            0 <= i < rows.len() ==> is_flushed(
                #[trigger] rows[i],
                upserted(table, dirty_rows(rows, last)),
            ) && usage_of(upserted(table, dirty_rows(rows, last)), rows[i].0) == rows[i].1,
        forall|i: int|
            0 <= i < rows.len() ==> is_flushed(
                #[trigger] rows[i],
                upserted(last, dirty_rows(rows, last)),
            ),
        upserted(table, dirty_rows(rows, last)).dom().contains(name) <==> table.dom().contains(name)
            || has_row(rows, name),
        !has_row(rows, name) ==> {
            let flushed = upserted(table, dirty_rows(rows, last));
            &&& table.dom().contains(name) ==> flushed[name] == table[name]
            &&& usage_of(flushed, name) == usage_of(table, name)
        },
{
    let d = dirty_rows(rows, last);
    lemma_dirty_rows(rows, last);
    assert forall|i: int| 0 <= i < rows.len() implies {
        &&& is_flushed(#[trigger] rows[i], upserted(table, d))
        &&& is_flushed(rows[i], upserted(last, d))
    } by {
        let n = rows[i].0;
        lemma_upserted(table, d, n);
        lemma_upserted(last, d, n);
        if is_flushed(rows[i], last) {
            assert forall|k: int| 0 <= k < d.len() implies (#[trigger] d[k]).0 != n by {
                let j = choose|j: int| 0 <= j < rows.len() && rows[j] == d[k];
                if d[k].0 == n {
                    if i < j {
                        assert(rows[i].0 != rows[j].0);
                    }
                    if j < i {
                        assert(rows[j].0 != rows[i].0);
                    }
                }
            }
        } else {
            let k = choose|k: int| 0 <= k < d.len() && d[k] == rows[i];
            assert(d[k].0 == n);
        }
    }
    lemma_upserted(table, d, name);
    if has_row(rows, name) {
        let i = choose|i: int| 0 <= i < rows.len() && (#[trigger] rows[i]).0 == name;
        assert(is_flushed(rows[i], upserted(table, d)));
    } else {
        assert forall|k: int| 0 <= k < d.len() implies (#[trigger] d[k]).0 != name by {
            let j = choose|j: int| 0 <= j < rows.len() && rows[j] == d[k];
            assert(rows[j].0 != name);
        }
    }
}

/// Counters survive a restart: a user whose counters were flushed starts again, within
/// the hour, exactly where they stood, and in any other hour with the same billed
/// usage and the same lifetime totals.
pub proof fn law_counters_survive_a_restart(
    table: Map<Seq<char>, SavedUsage>,
    last: Map<Seq<char>, SavedUsage>,
    rows: Seq<(Seq<char>, SavedUsage)>,
    i: int,
    user: QuotaState,
    hour: i64,
)
    requires
        users_distinct(rows),
        ledger_holds(table, last),
        0 <= i < rows.len(),
        user.wf(),
        user.used() <= u64::MAX,
        rows[i].1 == user.saved(),
    ensures
        ({
            let flushed = upserted(table, dirty_rows(rows, last));
            let again = restored(user.limit, usage_of(flushed, rows[i].0), hour);
            &&& hour == user.hour ==> again == user
            &&& again.used() == user.used()
            &&& again.upload == user.upload
            &&& again.download == user.download
            &&& again.exhausted == user.exhausted
        }),
{
    law_flush_persists_every_user(table, last, rows, rows[i].0);
    assert(usage_of(upserted(table, dirty_rows(rows, last)), rows[i].0) == user.saved());
}

/// A migrated row is billed the larger direction of its lifetime, in whatever hour it
/// is loaded, and keeps its totals.
pub proof fn law_migration_bills_the_larger_direction(
    upload: u64,
    download: u64,
    limit: Option<u64>,
    hour: i64,
)
    ensures
        restored(limit, migrated(upload, download), hour).used() == larger(upload, download),
        restored(limit, migrated(upload, download), hour).upload == upload,
        restored(limit, migrated(upload, download), hour).download == download,
{
}

/// An idle server writes nothing: with the same counters as at the last flush no row
/// is dirty.
pub proof fn law_idle_flush_writes_nothing(
    last: Map<Seq<char>, SavedUsage>,
    rows: Seq<(Seq<char>, SavedUsage)>,
)
    requires
        users_distinct(rows),
    ensures
        dirty_rows(rows, upserted(last, dirty_rows(rows, last))).len() == 0,
{
    let after = upserted(last, dirty_rows(rows, last));
    law_flush_persists_every_user(last, last, rows, seq![]);
    lemma_dirty_rows(rows, after);
    let d = dirty_rows(rows, after);
    if d.len() > 0 {
        assert(rows.contains(d[0]) && !is_flushed(d[0], after));
        let j = choose|j: int| 0 <= j < rows.len() && rows[j] == d[0];
        assert(is_flushed(rows[j], after));
    }
}

/// A row shows its user and its counters, and counts as flushed exactly if the ledger
/// has the same counters for the user.
pub proof fn law_rows_show_what_they_hold(
    row: UsageRow,
    rows: Seq<UsageRow>,
    i: int,
    last: Map<Seq<char>, SavedUsage>,
    name: Seq<char>,
)
    requires
        0 <= i < rows.len(),
    ensures
        row_view(row).0 == row.user@,
        row_view(row).1 == row.usage,
        row_views(rows).len() == rows.len(),
        row_views(rows)[i].0 == rows[i].user@,
        row_views(rows)[i].1 == rows[i].usage,
        is_flushed((row.user@, row.usage), last) <==> last.dom().contains(row.user@)
            && last[row.user@] == row.usage,
        last.dom().contains(name) ==> usage_of(last, name) == last[name],
        !last.dom().contains(name) ==> usage_of(last, name).upload == 0 && usage_of(
            last,
            name,
        ).download == 0 && usage_of(last, name).settled == 0 && usage_of(
            last,
            name,
        ).hour_upload == 0 && usage_of(last, name).hour_download == 0 && usage_of(
            last,
            name,
        ).hour_id == 0,
{
}

/// The rows that are written are all those that differ from the ledger, in their order,
/// and no others, even where a user has several.
pub proof fn law_rows_that_differ_are_written(
    rows: Seq<(Seq<char>, SavedUsage)>,
    last: Map<Seq<char>, SavedUsage>,
)
    ensures
        dirty_rows(rows, last) == rows.filter(
            |row: (Seq<char>, SavedUsage)|
                !(last.dom().contains(row.0) && last[row.0] == row.1),
        ),
    decreases rows.len(),
{
    let differs = |row: (Seq<char>, SavedUsage)|
        !(last.dom().contains(row.0) && last[row.0] == row.1);
    reveal(Seq::filter);
    if rows.len() > 0 {
        law_rows_that_differ_are_written(rows.drop_last(), last);
    }
    assert(dirty_rows(rows, last) =~= rows.filter(differs));
}

/// Writing rows leaves each user the last of their rows, and everybody else what they
/// had.
pub proof fn law_last_row_of_a_user_stays(
    table: Map<Seq<char>, SavedUsage>,
    rows: Seq<(Seq<char>, SavedUsage)>,
    name: Seq<char>,
    i: int,
)
    requires
        -1 <= i < rows.len(),
        i >= 0 ==> rows[i].0 == name,
        forall|k: int| i < k < rows.len() ==> (#[trigger] rows[k]).0 != name,
    ensures
        i >= 0 ==> upserted(table, rows).dom().contains(name) && upserted(table, rows)[name]
            == rows[i].1,
        i < 0 ==> upserted(table, rows).dom().contains(name) == table.dom().contains(name),
        i < 0 && table.dom().contains(name) ==> upserted(table, rows)[name] == table[name],
    decreases rows.len(),
{
    if rows.len() > 0 && i < rows.len() - 1 {
        let init = rows.drop_last();
        assert(rows[rows.len() - 1].0 != name);
        assert forall|k: int| i < k < init.len() implies (#[trigger] init[k]).0 != name by {
            assert(rows[k].0 != name);
        }
        law_last_row_of_a_user_stays(table, init, name, i);
    }
}

/// A migrated row keeps its totals, is settled by the greater of them, and has nothing
/// in its hour, which is long over.
pub proof fn law_migration_settles_the_greater_total(upload: u64, download: u64)
    ensures
        ({
            let m = migrated(upload, download);
            &&& m.upload == upload
            &&& m.download == download
            &&& m.settled >= upload
            &&& m.settled >= download
            &&& m.settled == upload || m.settled == download
            &&& m.hour_upload == 0
            &&& m.hour_download == 0
            &&& m.hour_id == 0
        }),
{
}

} // verus!
