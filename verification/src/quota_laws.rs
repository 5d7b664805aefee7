//! What billing promises.

use crate::quota::{
    larger, no_usage, restored, saved_used, wrapped, Direction, QuotaState, SavedUsage,
};
use vstd::prelude::*;

verus! {

/// When an hour is settled, billed usage reads the same before and after, so that
/// nothing depends on how promptly that happens; limit, lifetime totals and exhaustion
/// stay. A new hour leaves all usage settled and its own buckets empty; the hour that
/// is running already changes nothing, and so does settling twice.
pub proof fn law_settlement_keeps_usage(s: QuotaState, hour: i64)
    requires
        s.used() <= u64::MAX,
    ensures
        ({
            let t = s.settle(hour);
            &&& t.used() == s.used()
            &&& t.limit == s.limit
            &&& t.upload == s.upload
            &&& t.download == s.download
            &&& t.exhausted == s.exhausted
            &&& s.wf() ==> t.wf()
            &&& t.remaining() == s.remaining()
            &&& t.hour == hour
            &&& if hour == s.hour {
                t == s
            } else {
                t.hour_upload == 0 && t.hour_download == 0 && t.hour_used() == 0 && t.settled
                    == s.used()
            }
            &&& t.settle(hour) == t
        }),
{
}

/// A transfer never lowers billed usage, and adds at most its own bytes to it.
pub proof fn law_usage_never_shrinks(s: QuotaState, n: u64, direction: Direction, hour: i64)
    requires
        s.used() + n <= u64::MAX,
    ensures
        s.used() <= s.consume(n, direction, hour).used() <= s.used() + n,
{
}

/// Within an hour, bytes in one direction cost nothing up to the level of the
/// other.
pub proof fn law_smaller_direction_is_free(s: QuotaState, n: u64)
    requires
        !s.exhausted,
    ensures
        s.hour_download + n <= s.hour_upload ==> s.consume(n, Direction::Download, s.hour).used()
            == s.used(),
        s.hour_upload + n <= s.hour_download ==> s.consume(n, Direction::Upload, s.hour).used()
            == s.used(),
{
}

/// Once a quota is exhausted nothing more is counted, in whatever hour.
pub proof fn law_exhaustion_is_final(s: QuotaState, n: u64, direction: Direction, hour: i64)
    requires
        s.exhausted,
    ensures
        s.consume(n, direction, hour) == s,
{
}

/// A quota runs out with the transfer that brings usage to the limit, and with no
/// other; a user without a limit never runs out.
pub proof fn law_runs_out_at_the_limit(s: QuotaState, n: u64, direction: Direction, hour: i64)
    requires
        s.wf(),
    ensures
        s.consume(n, direction, hour).exhausted <==> s.limit is Some && s.consume(
            n,
            direction,
            hour,
        ).used() >= s.limit->0,
{
}

/// A quota is exhausted exactly if nothing remains of it.
pub proof fn law_exhausted_iff_nothing_remains(s: QuotaState)
    requires
        s.wf(),
    ensures
        s.exhausted <==> s.remaining() == Some(0u64),
{
}

/// A restart within the hour resumes exactly where the snapshot was taken.
pub proof fn law_restart_in_the_hour_loses_nothing(s: QuotaState)
    requires
        s.wf(),
    ensures
        restored(s.limit, s.saved(), s.hour) == s,
        restored(s.limit, s.saved(), s.hour).saved() == s.saved(),
{
}

/// A restart in any hour, with any limit, keeps billed usage and lifetime totals;
/// and the quota is exhausted exactly if the limit that is now in force is reached,
/// so that a raised limit lets traffic flow again.
pub proof fn law_restart_keeps_usage(s: QuotaState, limit: Option<u64>, hour: i64)
    requires
        s.used() <= u64::MAX,
    ensures
        ({
            let r = restored(limit, s.saved(), hour);
            &&& r.used() == s.used()
            &&& r.upload == s.upload
            &&& r.download == s.download
            &&& r.exhausted <==> limit is Some && s.used() >= limit->0
            &&& hour != s.hour ==> r.settled == s.used() && r.hour_used() == 0
        }),
{
}

/// A row that has nothing in its hour counts as fully settled, whatever hour it is
/// loaded in.
pub proof fn law_settled_rows_load_as_they_are(saved: SavedUsage, limit: Option<u64>, hour: i64)
    requires
        saved.hour_upload == 0,
        saved.hour_download == 0,
    ensures
        restored(limit, saved, hour).used() == saved.settled,
        restored(limit, saved, hour).settled == saved.settled,
        restored(limit, saved, hour).hour_used() == 0,
{
}

/// A transfer: bytes in a direction in an hour.
pub struct Transfer {
    pub hour: i64,
    pub direction: Direction,
    pub bytes: u64,
}

/// The counters after a row of transfers.
pub open spec fn run(s: QuotaState, trace: Seq<Transfer>) -> QuotaState
    decreases trace.len(),
{
    if trace.len() == 0 {
        s
    } else {
        let t = trace.last();
        run(s, trace.drop_last()).consume(t.bytes, t.direction, t.hour)
    }
}

/// Restarts do not show in the bill: whenever a user with something left starts again
/// from a snapshot, in whatever later hour, the transfers that follow leave the very
/// counters that they would have left without the restart.
pub proof fn law_restarts_do_not_show(s: QuotaState, hour: i64, trace: Seq<Transfer>)
    requires
        s.wf(),
        !s.exhausted,
        s.used() <= u64::MAX,
        s.hour <= hour,
        trace.len() > 0,
        in_order(trace, hour as int),
    ensures
        run(restored(s.limit, s.saved(), hour), trace) == run(s, trace),
    decreases trace.len(),
{
    let init = trace.drop_last();
    assert(hour <= trace[trace.len() - 1].hour);
    if init.len() == 0 {
        let again = restored(s.limit, s.saved(), hour);
        assert(run(s, init) == s);
        assert(run(again, init) == again);
        assert(again.settle(trace.last().hour) == s.settle(trace.last().hour));
    } else {
        assert(in_order(init, hour as int)) by {
            assert forall|i: int| 0 <= i < init.len() implies hour <= (#[trigger] init[i]).hour by {
                assert(init[i] == trace[i]);
            }
            assert forall|i: int, j: int| 0 <= i <= j < init.len() implies (#[trigger] init[i]).hour
                <= (#[trigger] init[j]).hour by {
                assert(trace[i].hour <= trace[j].hour);
            }
        }
        law_restarts_do_not_show(s, hour, init);
    }
}

/// The bytes that a row of transfers moved in one direction in one hour.
pub open spec fn traffic(trace: Seq<Transfer>, hour: int, direction: Direction) -> nat
    decreases trace.len(),
{
    if trace.len() == 0 {
        0
    } else {
        let t = trace.last();
        traffic(trace.drop_last(), hour, direction) + if t.hour == hour && t.direction == direction {
            t.bytes as nat
        } else {
            0
        }
    }
}

/// The bytes that a row of transfers moved in one direction.
pub open spec fn moved(trace: Seq<Transfer>, direction: Direction) -> nat
    decreases trace.len(),
{
    if trace.len() == 0 {
        0
    } else {
        moved(trace.drop_last(), direction) + if trace.last().direction == direction {
            trace.last().bytes as nat
        } else {
            0
        }
    }
}

/// All the bytes that a row of transfers moved.
pub open spec fn total_bytes(trace: Seq<Transfer>) -> nat
    decreases trace.len(),
{
    if trace.len() == 0 {
        0
    } else {
        total_bytes(trace.drop_last()) + trace.last().bytes as nat
    }
}

/// What an hour is charged: the larger of its inbound and outbound bytes.
pub open spec fn hour_bill(trace: Seq<Transfer>, hour: int) -> nat {
    let up = traffic(trace, hour, Direction::Upload);
    let down = traffic(trace, hour, Direction::Download);
    if up >= down {
        up
    } else {
        down
    }
}

/// What the hours from `from` on and before `to` are charged together.
pub open spec fn bill(trace: Seq<Transfer>, from: int, to: int) -> nat
    decreases to - from,
{
    if to <= from {
        0
    } else {
        bill(trace, from, to - 1) + hour_bill(trace, to - 1)
    }
}

/// Time does not run backwards, and starts at `from`.
pub open spec fn in_order(trace: Seq<Transfer>, from: int) -> bool {
    &&& forall|i: int| 0 <= i < trace.len() ==> from <= (#[trigger] trace[i]).hour
    &&& forall|i: int, j: int|
        0 <= i <= j < trace.len() ==> (#[trigger] trace[i]).hour <= (#[trigger] trace[j]).hour
}

proof fn lemma_no_traffic(trace: Seq<Transfer>, hour: int, direction: Direction)
    requires
        forall|i: int| 0 <= i < trace.len() ==> (#[trigger] trace[i]).hour != hour,
    ensures
        traffic(trace, hour, direction) == 0,
    decreases trace.len(),
{
    if trace.len() > 0 {
        let init = trace.drop_last();
        assert forall|i: int| 0 <= i < init.len() implies (#[trigger] init[i]).hour != hour by {
            assert(init[i] == trace[i]);
        }
        lemma_no_traffic(init, hour, direction);
        assert(trace[trace.len() - 1].hour != hour);
    }
}

/// Hours without a transfer are charged nothing.
proof fn lemma_bill_idle(trace: Seq<Transfer>, from: int, mid: int, to: int)
    requires
        from <= mid <= to,
        forall|i: int| 0 <= i < trace.len() ==> (#[trigger] trace[i]).hour < mid,
    ensures
        bill(trace, from, to) == bill(trace, from, mid),
    decreases to - mid,
{
    if mid < to {
        lemma_bill_idle(trace, from, mid, to - 1);
        lemma_no_traffic(trace, to - 1, Direction::Upload);
        lemma_no_traffic(trace, to - 1, Direction::Download);
    }
}

/// A later transfer does not change what earlier hours are charged.
proof fn lemma_bill_past(trace: Seq<Transfer>, from: int, to: int)
    requires
        trace.len() > 0,
        trace.last().hour >= to,
    ensures
        bill(trace, from, to) == bill(trace.drop_last(), from, to),
    decreases to - from,
{
    if from < to {
        lemma_bill_past(trace, from, to - 1);
    }
}

proof fn lemma_run_billed(s: QuotaState, trace: Seq<Transfer>)
    requires
        s.settled == 0 && s.hour_upload == 0 && s.hour_download == 0,
        in_order(trace, s.hour as int),
        total_bytes(trace) <= u64::MAX,
        trace.len() > 0 ==> !run(s, trace.drop_last()).exhausted,
        forall|i: int| 0 <= i < trace.len() ==> !(#[trigger] run(s, trace.take(i))).exhausted,
    ensures
        ({
            let r = run(s, trace);
            let hour = if trace.len() == 0 {
                s.hour
            } else {
                trace.last().hour
            };
            &&& r.hour == hour
            &&& r.settled == bill(trace, s.hour as int, hour as int)
            &&& r.hour_upload == traffic(trace, hour as int, Direction::Upload)
            &&& r.hour_download == traffic(trace, hour as int, Direction::Download)
            &&& r.settled + r.hour_upload + r.hour_download <= total_bytes(trace)
        }),
    decreases trace.len(),
{
    if trace.len() > 0 {
        let init = trace.drop_last();
        let t = trace.last();
        assert forall|i: int| 0 <= i < init.len() implies !(#[trigger] run(
            s,
            init.take(i),
        )).exhausted by {
            assert(init.take(i) =~= trace.take(i));
        }
        if init.len() > 0 {
            assert(init.drop_last() =~= trace.take(init.len() - 1));
        }
        assert(in_order(init, s.hour as int)) by {
            assert forall|i: int| 0 <= i < init.len() implies s.hour <= (#[trigger] init[i]).hour by {
                assert(init[i] == trace[i]);
            }
            assert forall|i: int, j: int| 0 <= i <= j < init.len() implies (#[trigger] init[i]).hour
                <= (#[trigger] init[j]).hour by {
                assert(trace[i].hour <= trace[j].hour);
            }
        }
        lemma_run_billed(s, init);
        let q = run(s, init);
        let last = trace[trace.len() - 1];
        assert(s.hour <= last.hour);
        assert(init =~= trace.take(trace.len() - 1));
        assert forall|i: int| 0 <= i < init.len() implies (#[trigger] init[i]).hour <= q.hour by {
            assert(init[i] == trace[i]);
            assert(init[init.len() - 1].hour == q.hour);
        }
        lemma_bill_past(trace, s.hour as int, t.hour as int);
        if init.len() > 0 {
            assert(trace[init.len() - 1].hour <= trace[trace.len() - 1].hour);
        }
        assert(q.hour <= t.hour);
        if t.hour != q.hour {
            lemma_bill_idle(init, s.hour as int, q.hour + 1, t.hour as int);
            lemma_no_traffic(init, t.hour as int, Direction::Upload);
            lemma_no_traffic(init, t.hour as int, Direction::Download);
        }
    }
}

/// Billed usage is the sum, over the hours, of the larger direction in each: for
/// every user who starts without usage, however many transfers there are and in
/// whichever hours they fall, up to the one that exhausts the quota.
pub proof fn law_usage_is_the_sum_of_hourly_bills(
    limit: Option<u64>,
    hour: i64,
    trace: Seq<Transfer>,
)
    requires
        trace.len() > 0,
        in_order(trace, hour as int),
        total_bytes(trace) <= u64::MAX,
        forall|i: int|
            0 <= i < trace.len() ==> !(#[trigger] run(
                restored(limit, no_usage(), hour),
                trace.take(i),
            )).exhausted,
    ensures
        run(restored(limit, no_usage(), hour), trace).used() == bill(
            trace,
            hour as int,
            trace.last().hour + 1,
        ),
{
    let s = restored(limit, no_usage(), hour);
    assert(trace.drop_last() =~= trace.take(trace.len() - 1));
    lemma_run_billed(s, trace);
}

/// A sum of bytes as a counter shows it, which starts again at zero past the greatest
/// number.
pub open spec fn shown(sum: nat) -> u64 {
    (sum % 0x1_0000_0000_0000_0000) as u64
}

/// A counter that shows a sum shows the sum with the next bytes once they are counted.
proof fn lemma_shown_step(sum: nat, n: u64)
    ensures
        shown(sum + n as nat) == wrapped(shown(sum), n),
{
    let end: int = 0x1_0000_0000_0000_0000;
    let q = sum as int / end;
    let r = sum as int % end;
    vstd::arithmetic::div_mod::lemma_fundamental_div_mod(sum as int, end);
    if r + n < end {
        vstd::arithmetic::div_mod::lemma_fundamental_div_mod_converse(sum + n, end, q, r + n);
    } else {
        vstd::arithmetic::div_mod::lemma_fundamental_div_mod_converse(
            sum + n,
            end,
            q + 1,
            r + n - end,
        );
    }
}

/// A sum that is no greater than the greatest number is shown as it is.
proof fn lemma_shown_small(sum: nat)
    requires
        sum <= u64::MAX,
    ensures
        shown(sum) == sum,
{
}

/// Lifetime totals are the plain sums of the bytes in each direction, whatever hours
/// the transfers fall in and in whatever order, up to the one that exhausts the quota.
/// Only a sum beyond the greatest number starts again at zero.
pub proof fn law_totals_are_plain_sums(s: QuotaState, trace: Seq<Transfer>)
    requires
        forall|i: int| 0 <= i < trace.len() ==> !(#[trigger] run(s, trace.take(i))).exhausted,
    ensures
        ({
            let r = run(s, trace);
            let up = s.upload as nat + moved(trace, Direction::Upload);
            let down = s.download as nat + moved(trace, Direction::Download);
            &&& r.upload == shown(up)
            &&& r.download == shown(down)
            &&& up <= u64::MAX ==> r.upload == up
            &&& down <= u64::MAX ==> r.download == down
        }),
    decreases trace.len(),
{
    if trace.len() > 0 {
        let init = trace.drop_last();
        assert forall|i: int| 0 <= i < init.len() implies !(#[trigger] run(
            s,
            init.take(i),
        )).exhausted by {
            assert(init.take(i) =~= trace.take(i));
        }
        law_totals_are_plain_sums(s, init);
        assert(init =~= trace.take(trace.len() - 1));
        let n = trace.last().bytes;
        lemma_shown_step(s.upload as nat + moved(init, Direction::Upload), n);
        lemma_shown_step(s.download as nat + moved(init, Direction::Download), n);
    }
    let up = s.upload as nat + moved(trace, Direction::Upload);
    let down = s.download as nat + moved(trace, Direction::Download);
    if up <= u64::MAX {
        lemma_shown_small(up);
    }
    if down <= u64::MAX {
        lemma_shown_small(down);
    }
}

/// The larger of two counters is one of them and no less than either; a sum of two that
/// is too great is short of it by a power of two.
pub proof fn law_counters_are_compared_and_added(a: u64, b: u64)
    ensures
        larger(a, b) >= a,
        larger(a, b) >= b,
        larger(a, b) == a || larger(a, b) == b,
        a + b <= u64::MAX ==> wrapped(a, b) == a + b,
        (wrapped(a, b) - a - b) % 0x1_0000_0000_0000_0000 == 0,
{
}

/// The current hour is billed the greater of what went up and what came down in it, and
/// billed usage is that on top of what is settled.
pub proof fn law_usage_is_settled_and_the_greater_direction(s: QuotaState)
    ensures
        s.hour_used() >= s.hour_upload,
        s.hour_used() >= s.hour_download,
        s.hour_used() == s.hour_upload || s.hour_used() == s.hour_download,
        s.used() >= s.settled + s.hour_upload,
        s.used() >= s.settled + s.hour_download,
        s.used() == s.settled + s.hour_upload || s.used() == s.settled + s.hour_download,
{
}

/// Where an hour is settled, its greater direction goes over into what is settled, and
/// nothing else changes but the buckets and the hour.
pub proof fn law_settlement_moves_the_greater_direction(s: QuotaState, hour: i64)
    requires
        s.hour != hour,
    ensures
        ({
            let t = s.settle(hour);
            &&& t.hour == hour
            &&& t.hour_upload == 0
            &&& t.hour_download == 0
            &&& s.hour_upload >= s.hour_download ==> (t.settled - s.settled - s.hour_upload)
                % 0x1_0000_0000_0000_0000 == 0
            &&& s.hour_download >= s.hour_upload ==> (t.settled - s.settled - s.hour_download)
                % 0x1_0000_0000_0000_0000 == 0
            &&& t.upload == s.upload
            &&& t.download == s.download
            &&& t.limit == s.limit
            &&& t.exhausted == s.exhausted
        }),
{
}

/// A transfer that is let through is counted where it belongs: in the lifetime total and
/// in the hour of its own direction, by its own bytes, and nowhere else. In a new hour
/// the finished one is settled first. The quota runs out exactly if the limit is reached
/// by what is settled and one of the directions of the hour.
pub proof fn law_transfer_is_counted(s: QuotaState, n: u64, direction: Direction, hour: i64)
    requires
        !s.exhausted,
    ensures
        ({
            let r = s.consume(n, direction, hour);
            let up: int = if direction is Upload {
                n as int
            } else {
                0
            };
            let down = n - up;
            let old_up: int = if s.hour == hour {
                s.hour_upload as int
            } else {
                0
            };
            let old_down: int = if s.hour == hour {
                s.hour_download as int
            } else {
                0
            };
            &&& r.limit == s.limit
            &&& r.hour == hour
            &&& (r.upload - s.upload - up) % 0x1_0000_0000_0000_0000 == 0
            &&& (r.download - s.download - down) % 0x1_0000_0000_0000_0000 == 0
            &&& (r.hour_upload - old_up - up) % 0x1_0000_0000_0000_0000 == 0
            &&& (r.hour_download - old_down - down) % 0x1_0000_0000_0000_0000 == 0
            &&& s.hour == hour ==> r.settled == s.settled
            &&& s.hour != hour && s.hour_upload >= s.hour_download ==> (r.settled - s.settled
                - s.hour_upload) % 0x1_0000_0000_0000_0000 == 0
            &&& s.hour != hour && s.hour_download >= s.hour_upload ==> (r.settled - s.settled
                - s.hour_download) % 0x1_0000_0000_0000_0000 == 0
            &&& r.exhausted <==> r.limit is Some && (r.settled + r.hour_upload >= r.limit->0
                || r.settled + r.hour_download >= r.limit->0)
        }),
{
}

/// A transfer is refused for its size only where a limited user, with something left,
/// would use more than the greatest number.
pub proof fn law_transfers_are_refused_only_beyond_the_greatest_number(
    s: QuotaState,
    n: u64,
    direction: Direction,
    hour: i64,
)
    ensures
        s.limit is None ==> s.can_consume(n, direction, hour),
        s.exhausted ==> s.can_consume(n, direction, hour),
        s.limit is Some && !s.exhausted ==> (s.can_consume(n, direction, hour) <==> {
            let r = s.consume(n, direction, hour);
            &&& r.settled + r.hour_upload <= u64::MAX
            &&& r.settled + r.hour_download <= u64::MAX
        }),
{
}

/// What is used and what remains make up the limit, until the limit is reached; then
/// nothing remains.
pub proof fn law_used_and_remaining_make_up_the_limit(s: QuotaState)
    ensures
        s.limit is Some <==> s.remaining() is Some,
        s.limit is Some && s.used() <= s.limit->0 ==> s.used() + s.remaining()->0 == s.limit->0,
        s.limit is Some && s.used() > s.limit->0 ==> s.remaining()->0 == 0,
{
}

/// A user starts from a snapshot with the totals of it and the limit that is now in
/// force; with the buckets of the snapshot in the same hour, and with empty buckets and
/// all usage settled in another. The user starts exhausted exactly if the limit is
/// reached. Nothing saved is nothing used.
pub proof fn law_snapshots_are_resumed(limit: Option<u64>, saved: SavedUsage, hour: i64)
    requires
        saved.settled + saved.hour_upload <= u64::MAX,
        saved.settled + saved.hour_download <= u64::MAX,
    ensures
        ({
            let r = restored(limit, saved, hour);
            &&& r.limit == limit
            &&& r.hour == hour
            &&& r.upload == saved.upload
            &&& r.download == saved.download
            &&& saved.hour_id == hour ==> r.settled == saved.settled && r.hour_upload
                == saved.hour_upload && r.hour_download == saved.hour_download
            &&& saved.hour_id != hour ==> {
                &&& r.hour_upload == 0 && r.hour_download == 0
                &&& r.settled >= saved.settled + saved.hour_upload
                &&& r.settled >= saved.settled + saved.hour_download
                &&& r.settled == saved.settled + saved.hour_upload || r.settled == saved.settled
                    + saved.hour_download
            }
            &&& r.exhausted <==> limit is Some && (saved.settled + saved.hour_upload >= limit->0
                || saved.settled + saved.hour_download >= limit->0)
        }),
        saved_used(saved) >= saved.settled + saved.hour_upload,
        saved_used(saved) >= saved.settled + saved.hour_download,
        saved_used(saved) == saved.settled + saved.hour_upload || saved_used(saved)
            == saved.settled + saved.hour_download,
        no_usage().upload == 0 && no_usage().download == 0 && no_usage().settled == 0,
        no_usage().hour_upload == 0 && no_usage().hour_download == 0 && no_usage().hour_id == 0,
{
}

/// A snapshot holds every counter as it is.
pub proof fn law_snapshots_hold_every_counter(s: QuotaState)
    ensures
        ({
            let saved = s.saved();
            &&& saved.upload == s.upload
            &&& saved.download == s.download
            &&& saved.settled == s.settled
            &&& saved.hour_upload == s.hour_upload
            &&& saved.hour_download == s.hour_download
            &&& saved.hour_id == s.hour
        }),
{
}

} // verus!
