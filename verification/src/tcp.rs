//! What becomes of the chunks of a TCP stream.

use crate::clock::{hour_of, Clock};
use crate::quota::{Direction, UserQuota};
use vstd::prelude::*;

verus! {

/// The seconds of silence after which a connection is probed.
pub const KEEPALIVE_TIME_SECS: u64 = 60;

/// The seconds between two such probes.
pub const KEEPALIVE_INTERVAL_SECS: u64 = 10;

/// What is to be done with a chunk that was read.
#[derive(Debug, Clone, Copy, PartialEq, Eq, Structural)]
pub enum ChunkAction {
    /// The stream ended: pass that on and let the other direction run.
    HalfClose,
    /// Pass the chunk on.
    Forward,
    /// The quota is exhausted: drop the chunk and close the connection.
    Abort,
}

/// Counts a chunk of `n` bytes that was read at a Unix time, and decides what is to
/// be done with it.
pub fn on_chunk(
    quota: &mut UserQuota,
    n: u64,
    direction: Direction,
    clock: &mut Clock,
    unix_secs: i64,
) -> (r: ChunkAction)
    requires
        old(quota)@.wf(),
        old(clock).wf(),
        old(clock).can_tell(unix_secs),
        old(quota)@.can_consume(n, direction, hour_of(unix_secs + old(clock).offset()) as i64),
    ensures
        final(quota)@ == if n == 0 {
            old(quota)@
        } else {
            old(quota)@.consume(n, direction, hour_of(unix_secs + old(clock).offset()) as i64)
        },
        final(quota)@.wf(),
        final(quota).user_name() == old(quota).user_name(),
        final(clock).wf(),
        final(quota)@.hour == old(quota)@.hour ==> *final(clock) == *old(clock),
        final(quota)@.hour != old(quota)@.hour ==> final(clock).refreshes() == old(
            clock,
        ).refreshes() + 1,
        r == if n == 0 {
            ChunkAction::HalfClose
        } else if final(quota)@.exhausted {
            ChunkAction::Abort
        } else {
            ChunkAction::Forward
        },
{
    if n == 0 {
        return ChunkAction::HalfClose;
    }
    if quota.try_consume(n, direction, clock, unix_secs) {
        ChunkAction::Forward
    } else {
        ChunkAction::Abort
    }
}

} // verus!
