//! UDP sessions, one for each client address.

use crate::clock::{hour_of, Clock};
use crate::net::SocketAddress;
use crate::pool::{Change, TargetPool};
use crate::quota::{Direction, UserQuota};
use vstd::prelude::*;

verus! {

/// The milliseconds after which a session without packets ends.
pub const IDLE_TIMEOUT_MS: u64 = 60_000;

/// A session: which one it is, and the target of the pool that it is connected to.
#[derive(Debug, Clone, Copy, PartialEq, Eq, Structural)]
pub struct Session {
    pub id: u64,
    pub target_index: usize,
}

/// The session of each client, and the number of the next one.
pub struct Sessions {
    pub by_peer: Map<SocketAddress, Session>,
    pub next_id: u64,
}

/// Every session has a number below that of the next one.
pub open spec fn ids_used(s: Sessions) -> bool {
    forall|p: SocketAddress| #[trigger] s.by_peer.dom().contains(p) ==> s.by_peer[p].id < s.next_id
}

/// The live sessions by client address.
#[derive(Debug)]
pub struct SessionTable {
    entries: Vec<(SocketAddress, Session)>,
    next_id: u64,
}

/// The entries as a map.
spec fn entry_map(entries: Seq<(SocketAddress, Session)>) -> Map<SocketAddress, Session>
    decreases entries.len(),
{
    if entries.len() == 0 {
        Map::empty()
    } else {
        entry_map(entries.drop_last()).insert(entries.last().0, entries.last().1)
    }
}

/// No client occurs twice.
spec fn peers_distinct(entries: Seq<(SocketAddress, Session)>) -> bool {
    forall|i: int, j: int|
        0 <= i < j < entries.len() ==> (#[trigger] entries[i]).0 != (#[trigger] entries[j]).0
}

proof fn lemma_entry_map(entries: Seq<(SocketAddress, Session)>)
    requires
        peers_distinct(entries),
    ensures
        forall|i: int|
            0 <= i < entries.len() ==> entry_map(entries).dom().contains(
                (#[trigger] entries[i]).0,
            ) && entry_map(entries)[entries[i].0] == entries[i].1,
        forall|p: SocketAddress|
            #[trigger] entry_map(entries).dom().contains(p) ==> exists|i: int|
                0 <= i < entries.len() && (#[trigger] entries[i]).0 == p,
    decreases entries.len(),
{
    if entries.len() > 0 {
        let init = entries.drop_last();
        assert(peers_distinct(init)) by {
            assert forall|i: int, j: int| 0 <= i < j < init.len() implies (#[trigger] init[i]).0 != (
            #[trigger] init[j]).0 by {
                assert(entries[i].0 != entries[j].0);
            }
        }
        lemma_entry_map(init);
        assert forall|i: int| 0 <= i < entries.len() implies entry_map(entries).dom().contains(
            (#[trigger] entries[i]).0,
        ) && entry_map(entries)[entries[i].0] == entries[i].1 by {
            if i < init.len() {
                assert(init[i] == entries[i]);
                assert(entries[i].0 != entries[entries.len() - 1].0);
            }
        }
        assert forall|p: SocketAddress| #[trigger]
            entry_map(entries).dom().contains(p) implies exists|i: int|
            0 <= i < entries.len() && (#[trigger] entries[i]).0 == p by {
            if p == entries.last().0 {
                assert(entries[entries.len() - 1].0 == p);
            } else {
                assert(entry_map(init).dom().contains(p));
                let i = choose|i: int| 0 <= i < init.len() && (#[trigger] init[i]).0 == p;
                assert(entries[i].0 == p);
            }
        }
    }
}

/// Two rows of entries with the same pairs are the same map.
proof fn lemma_entry_map_is(
    entries: Seq<(SocketAddress, Session)>,
    m: Map<SocketAddress, Session>,
)
    requires
        peers_distinct(entries),
        forall|i: int|
            0 <= i < entries.len() ==> m.dom().contains((#[trigger] entries[i]).0)
                && m[entries[i].0] == entries[i].1,
        forall|p: SocketAddress|
            #[trigger] m.dom().contains(p) ==> exists|i: int|
                0 <= i < entries.len() && (#[trigger] entries[i]).0 == p,
    ensures
        entry_map(entries) == m,
{
    lemma_entry_map(entries);
    let e = entry_map(entries);
    assert forall|p: SocketAddress| e.dom().contains(p) == m.dom().contains(p) by {
        if e.dom().contains(p) {
            let i = choose|i: int| 0 <= i < entries.len() && (#[trigger] entries[i]).0 == p;
            assert(m.dom().contains(entries[i].0));
        }
        if m.dom().contains(p) {
            let i = choose|i: int| 0 <= i < entries.len() && (#[trigger] entries[i]).0 == p;
            assert(e.dom().contains(entries[i].0));
        }
    }
    assert forall|p: SocketAddress| e.dom().contains(p) implies e[p] == m[p] by {
        let i = choose|i: int| 0 <= i < entries.len() && (#[trigger] entries[i]).0 == p;
        assert(e[entries[i].0] == m[entries[i].0]);
    }
    assert(e =~= m);
}

impl View for SessionTable {
    type V = Sessions;

    closed spec fn view(&self) -> Sessions {
        Sessions { by_peer: entry_map(self.entries@), next_id: self.next_id }
    }
}

impl SessionTable {
    /// No client has two sessions, and every session was opened before the next one.
    pub closed spec fn wf(&self) -> bool {
        peers_distinct(self.entries@) && ids_used(self@)
    }

    /// A table without sessions.
    pub fn new() -> (r: SessionTable)
        ensures
            r.wf(),
            r@ == (Sessions { by_peer: Map::empty(), next_id: 0 }),
    {
        SessionTable { entries: Vec::new(), next_id: 0 }
    }

    /// A session that is opened next has a number that no live session has.
    pub proof fn law_session_numbers_are_fresh(&self)
        requires
            self.wf(),
        ensures
            ids_used(self@),
    {
    }

    fn find(&self, peer: SocketAddress) -> (r: Option<usize>)
        requires
            self.wf(),
        ensures
            match r {
                Some(i) => i < self.entries@.len() && self.entries@[i as int].0 == peer
                    && self@.by_peer.dom().contains(peer) && self@.by_peer[peer]
                    == self.entries@[i as int].1,
                None => !self@.by_peer.dom().contains(peer) && forall|j: int|
                    0 <= j < self.entries@.len() ==> (#[trigger] self.entries@[j]).0 != peer,
            },
    {
        proof {
            lemma_entry_map(self.entries@);
        }
        let mut i: usize = 0;
        while i < self.entries.len()
            invariant
                i <= self.entries@.len(),
                forall|j: int| 0 <= j < i ==> (#[trigger] self.entries@[j]).0 != peer,
                forall|i: int|
                    0 <= i < self.entries@.len() ==> entry_map(self.entries@).dom().contains(
                        (#[trigger] self.entries@[i]).0,
                    ) && entry_map(self.entries@)[self.entries@[i].0] == self.entries@[i].1,
            decreases self.entries@.len() - i,
        {
            if self.entries[i].0 == peer {
                assert(self.entries@[i as int].0 == peer);
                return Some(i);
            }
            i = i + 1;
        }
        None
    }

    /// The session of a client.
    pub fn get(&self, peer: SocketAddress) -> (r: Option<Session>)
        requires
            self.wf(),
        ensures
            r == if self@.by_peer.dom().contains(peer) {
                Some(self@.by_peer[peer])
            } else {
                None
            },
    {
        match self.find(peer) {
            Some(i) => Some(self.entries[i].1),
            None => None,
        }
    }

    /// Whether there is a number left for another session.
    pub fn can_open(&self) -> (r: bool)
        ensures
            r == (self@.next_id < u64::MAX),
    {
        self.next_id < u64::MAX
    }

    /// Opens a session of a client to a target. It takes the place of the one that the
    /// client had, if any.
    pub fn open(&mut self, peer: SocketAddress, target_index: usize) -> (r: Session)
        requires
            old(self).wf(),
            old(self)@.next_id < u64::MAX,
        ensures
            final(self).wf(),
            r == (Session { id: old(self)@.next_id, target_index }),
            final(self)@ == with_session(old(self)@, peer, target_index),
    {
        let at = self.find(peer);
        let session = Session { id: self.next_id, target_index };
        self.next_id = self.next_id + 1;
        let ghost before = self.entries@;
        let ghost m = entry_map(before).insert(peer, session);
        proof {
            lemma_entry_map(before);
        }
        match at {
            Some(i) => {
                self.entries[i] = (peer, session);
                proof {
                    assert(self.entries@ =~= before.update(i as int, (peer, session)));
                    assert forall|p: SocketAddress| #[trigger] m.dom().contains(p) implies exists|
                        k: int,
                    |
                        0 <= k < self.entries@.len() && (#[trigger] self.entries@[k]).0 == p by {
                        let k = if p == peer {
                            i as int
                        } else {
                            choose|k: int| 0 <= k < before.len() && (#[trigger] before[k]).0 == p
                        };
                        assert(self.entries@[k].0 == p);
                    }
                    assert forall|k: int| 0 <= k < self.entries@.len() implies m.dom().contains(
                        (#[trigger] self.entries@[k]).0,
                    ) && m[self.entries@[k].0] == self.entries@[k].1 by {
                        if k != i {
                            assert(self.entries@[k] == before[k]);
                            assert(before[k].0 != before[i as int].0);
                        }
                    }
                    assert forall|a: int, b: int| 0 <= a < b < self.entries@.len() implies (
                    #[trigger] self.entries@[a]).0 != (#[trigger] self.entries@[b]).0 by {
                        assert(before[a].0 != before[b].0);
                    }
                    lemma_entry_map_is(self.entries@, m);
                }
            },
            None => {
                self.entries.push((peer, session));
                proof {
                    assert(self.entries@.drop_last() =~= before);
                    assert forall|a: int, b: int| 0 <= a < b < self.entries@.len() implies (
                    #[trigger] self.entries@[a]).0 != (#[trigger] self.entries@[b]).0 by {
                        assert(self.entries@[a] == before[a]);
                        if b < before.len() {
                            assert(before[a].0 != before[b].0);
                        }
                    }
                }
            },
        }
        proof {
            assert(self@ == with_session(old(self)@, peer, target_index));
            assert forall|p: SocketAddress| #[trigger]
                self@.by_peer.dom().contains(p) implies self@.by_peer[p].id < self@.next_id by {
                if p != peer {
                    assert(old(self)@.by_peer.dom().contains(p));
                }
            }
        }
        session
    }

    /// Closes a session of a client, unless another has taken its place already.
    pub fn close(&mut self, peer: SocketAddress, id: u64) -> (r: bool)
        requires
            old(self).wf(),
        ensures
            final(self).wf(),
            r == (old(self)@.by_peer.dom().contains(peer) && old(self)@.by_peer[peer].id == id),
            final(self)@ == without_session(old(self)@, peer, id),
    {
        let ghost before = self.entries@;
        match self.find(peer) {
            Some(i) => {
                if self.entries[i].1.id != id {
                    return false;
                }
                proof {
                    lemma_entry_map(before);
                }
                self.entries.remove(i);
                proof {
                    let m = entry_map(before).remove(peer);
                    assert forall|k: int| 0 <= k < self.entries@.len() implies m.dom().contains(
                        (#[trigger] self.entries@[k]).0,
                    ) && m[self.entries@[k].0] == self.entries@[k].1 by {
                        let o = if k < i {
                            k
                        } else {
                            k + 1
                        };
                        assert(self.entries@[k] == before[o]);
                        if o < i {
                            assert(before[o].0 != before[i as int].0);
                        } else {
                            assert(before[i as int].0 != before[o].0);
                        }
                    }
                    assert forall|p: SocketAddress| #[trigger] m.dom().contains(p) implies exists|
                        k: int,
                    |
                        0 <= k < self.entries@.len() && (#[trigger] self.entries@[k]).0 == p by {
                        let o = choose|o: int| 0 <= o < before.len() && (#[trigger] before[o]).0 == p;
                        let k = if o < i {
                            o
                        } else {
                            o - 1
                        };
                        assert(self.entries@[k] == before[o]);
                    }
                    assert forall|a: int, b: int| 0 <= a < b < self.entries@.len() implies (
                    #[trigger] self.entries@[a]).0 != (#[trigger] self.entries@[b]).0 by {
                        let oa = if a < i {
                            a
                        } else {
                            a + 1
                        };
                        let ob = if b < i {
                            b
                        } else {
                            b + 1
                        };
                        assert(self.entries@[a] == before[oa]);
                        assert(self.entries@[b] == before[ob]);
                        assert(before[oa].0 != before[ob].0);
                    }
                    lemma_entry_map_is(self.entries@, m);
                }
                true
            },
            None => false,
        }
    }
}

/// What is to be done with a packet of a client.
#[derive(Debug, Clone, Copy, PartialEq, Eq, Structural)]
pub enum PacketAction {
    /// The quota is exhausted: drop it.
    Drop,
    /// Send it through this session.
    Send { session: Session },
    /// Open a session first.
    Open,
}

/// Counts a packet of `n` bytes that a client sent, and decides what is to be done
/// with it.
pub fn on_packet(
    quota: &mut UserQuota,
    sessions: &SessionTable,
    peer: SocketAddress,
    n: u64,
    clock: &mut Clock,
    unix_secs: i64,
) -> (r: PacketAction)
    requires
        sessions.wf(),
        old(quota)@.wf(),
        old(clock).wf(),
        old(clock).can_tell(unix_secs),
        old(quota)@.can_consume(
            n,
            Direction::Upload,
            hour_of(unix_secs + old(clock).offset()) as i64,
        ),
    ensures
        final(quota)@ == old(quota)@.consume(
            n,
            Direction::Upload,
            hour_of(unix_secs + old(clock).offset()) as i64,
        ),
        final(quota)@.wf(),
        final(quota).user_name() == old(quota).user_name(),
        final(clock).wf(),
        final(quota)@.hour == old(quota)@.hour ==> *final(clock) == *old(clock),
        final(quota)@.hour != old(quota)@.hour ==> final(clock).refreshes() == old(
            clock,
        ).refreshes() + 1,
        r == if final(quota)@.exhausted {
            PacketAction::Drop
        } else if sessions@.by_peer.dom().contains(peer) {
            PacketAction::Send { session: sessions@.by_peer[peer] }
        } else {
            PacketAction::Open
        },
{
    if !quota.try_consume(n, Direction::Upload, clock, unix_secs) {
        return PacketAction::Drop;
    }
    match sessions.get(peer) {
        Some(session) => PacketAction::Send { session },
        None => PacketAction::Open,
    }
}

/// A packet could not be sent: the target counts as down, and the session is shed
/// so that the next packet opens one to the target that is active then.
pub fn on_send_failure(
    pool: &mut TargetPool,
    sessions: &mut SessionTable,
    peer: SocketAddress,
    session: Session,
) -> (r: Change)
    requires
        old(pool)@.wf(),
        session.target_index < old(pool)@.targets.len(),
        old(sessions).wf(),
    ensures
        final(pool)@ == old(pool)@.with_health(session.target_index as int, false),
        final(pool)@.wf(),
        final(pool).user_name() == old(pool).user_name(),
        r == old(pool)@.health_change(session.target_index as int, false),
        final(sessions).wf(),
        final(sessions)@ == without_session(old(sessions)@, peer, session.id),
{
    let change = pool.mark_down(session.target_index);
    sessions.close(peer, session.id);
    change
}

/// The sessions once a client's session of this number is closed.
pub open spec fn without_session(s: Sessions, peer: SocketAddress, id: u64) -> Sessions {
    if s.by_peer.dom().contains(peer) && s.by_peer[peer].id == id {
        Sessions { by_peer: s.by_peer.remove(peer), ..s }
    } else {
        s
    }
}

/// What a session waits for.
#[derive(Debug, Clone, Copy, PartialEq, Eq, Structural)]
pub enum RelayEvent {
    /// The quota ran out.
    QuotaExhausted,
    /// Another target became the active one.
    ActiveMoved,
    /// No reply came for the length of the idle timeout.
    Silence,
    /// The upstream socket failed.
    Failed,
    /// A reply of this many bytes came.
    Reply { bytes: u64 },
}

/// What is to be done with a session.
#[derive(Debug, Clone, Copy, PartialEq, Eq, Structural)]
pub enum RelayAction {
    /// End it.
    End,
    /// Keep waiting.
    Wait,
    /// Hand the reply to the client and keep waiting.
    Deliver,
}

/// No packet went either way for the length of the idle timeout.
pub open spec fn is_idle(last_active_ms: u64, now_ms: u64) -> bool {
    now_ms - last_active_ms >= IDLE_TIMEOUT_MS
}

/// The target of a session is no longer the active one, so the session ends and the
/// client's next packet opens one to the right target.
pub fn has_moved(active: usize, session: Session) -> (r: bool)
    ensures
        r == (active != session.target_index),
{
    active != session.target_index
}

/// What is to be done with a session on an event. A reply comes at a Unix time and
/// counts as download; it also confirms its target.
pub fn on_relay_event(
    event: RelayEvent,
    session: Session,
    pool: &mut TargetPool,
    quota: &mut UserQuota,
    clock: &mut Clock,
    unix_secs: i64,
    last_active_ms: u64,
    session_now_ms: u64,
    pool_now_ms: u64,
) -> (r: (RelayAction, Change))
    requires
        old(pool)@.wf(),
        session.target_index < old(pool)@.targets.len(),
        old(quota)@.wf(),
        old(clock).wf(),
        old(clock).can_tell(unix_secs),
        event matches RelayEvent::Reply { bytes } ==> old(quota)@.can_consume(
            bytes,
            Direction::Download,
            hour_of(unix_secs + old(clock).offset()) as i64,
        ),
    ensures
        final(pool)@.wf(),
        final(pool).user_name() == old(pool).user_name(),
        final(quota)@.wf(),
        final(quota).user_name() == old(quota).user_name(),
        final(clock).wf(),
        final(quota)@.hour == old(quota)@.hour ==> *final(clock) == *old(clock),
        final(quota)@.hour != old(quota)@.hour ==> final(clock).refreshes() == old(
            clock,
        ).refreshes() + 1,
        event is Silence ==> (r.0 is Wait <==> session_now_ms < last_active_ms + 60_000),
        event is Silence ==> (r.0 is End <==> session_now_ms >= last_active_ms + 60_000),
        match event {
            RelayEvent::Reply { bytes } => {
                &&& final(quota)@ == old(quota)@.consume(
                    bytes,
                    Direction::Download,
                    hour_of(unix_secs + old(clock).offset()) as i64,
                )
                &&& final(pool)@ == old(pool)@.with_confirmation(
                    session.target_index as int,
                    pool_now_ms,
                )
                &&& r.1 == old(pool)@.health_change(session.target_index as int, true)
                &&& r.0 == if final(quota)@.exhausted {
                    RelayAction::End
                } else {
                    RelayAction::Deliver
                }
            },
            _ => {
                &&& final(quota)@ == old(quota)@
                &&& final(pool)@ == old(pool)@
                &&& r.1 == (Change { switch: None, rearm_secs: None })
                &&& r.0 == if event is Silence && !is_idle(last_active_ms, session_now_ms) {
                    RelayAction::Wait
                } else {
                    RelayAction::End
                }
            },
        },
{
    let none = Change { switch: None, rearm_secs: None };
    match event {
        RelayEvent::Silence => if session_now_ms.saturating_sub(last_active_ms) >= IDLE_TIMEOUT_MS {
            (RelayAction::End, none)
        } else {
            (RelayAction::Wait, none)
        },
        RelayEvent::Reply { bytes } => {
            let change = pool.confirm(session.target_index, pool_now_ms);
            if quota.try_consume(bytes, Direction::Download, clock, unix_secs) {
                (RelayAction::Deliver, change)
            } else {
                (RelayAction::End, change)
            }
        },
        RelayEvent::QuotaExhausted => (RelayAction::End, none),
        RelayEvent::ActiveMoved => (RelayAction::End, none),
        RelayEvent::Failed => (RelayAction::End, none),
    }
}

/// The sessions once a client's session to a target is opened.
pub open spec fn with_session(s: Sessions, peer: SocketAddress, target_index: usize) -> Sessions {
    Sessions {
        by_peer: s.by_peer.insert(peer, Session { id: s.next_id, target_index }),
        next_id: (s.next_id + 1) as u64,
    }
}

/// A session that ends late leaves the one that took its place alone: once a client
/// has opened a session anew, closing an earlier one of anybody changes nothing for
/// that client.
pub proof fn law_replaced_session_stays(
    s: Sessions,
    peer: SocketAddress,
    other: SocketAddress,
    target_index: usize,
)
    requires
        ids_used(s),
        s.next_id < u64::MAX,
        s.by_peer.dom().contains(other),
    ensures
        ({
            let opened = with_session(s, peer, target_index);
            let closed = without_session(opened, other, s.by_peer[other].id);
            &&& closed.by_peer.dom().contains(peer)
            &&& closed.by_peer[peer] == opened.by_peer[peer]
        }),
{
}

/// Whether a session is idle depends only on how long ago its last packet was: a minute
/// or more, whenever that was.
pub proof fn law_idleness_is_a_minute_without_packets(
    last_active_ms: u64,
    now_ms: u64,
    later_last_ms: u64,
    later_now_ms: u64,
)
    ensures
        now_ms < last_active_ms + 60_000 ==> !is_idle(last_active_ms, now_ms),
        now_ms >= last_active_ms + 60_000 ==> is_idle(last_active_ms, now_ms),
        later_now_ms - later_last_ms == now_ms - last_active_ms ==> is_idle(
            later_last_ms,
            later_now_ms,
        ) == is_idle(last_active_ms, now_ms),
{
}

/// Opening a session gives the client the next number and the target, and leaves every
/// other client alone.
pub proof fn law_opening_concerns_one_client(
    s: Sessions,
    peer: SocketAddress,
    target_index: usize,
    other: SocketAddress,
)
    requires
        s.next_id < u64::MAX,
    ensures
        ({
            let t = with_session(s, peer, target_index);
            &&& t.by_peer.dom().contains(peer)
            &&& t.by_peer[peer].id == s.next_id
            &&& t.by_peer[peer].target_index == target_index
            &&& t.next_id == s.next_id + 1
            &&& other != peer ==> t.by_peer.dom().contains(other) == s.by_peer.dom().contains(other)
            &&& other != peer && s.by_peer.dom().contains(other) ==> t.by_peer[other]
                == s.by_peer[other]
        }),
{
}

/// Closing a session takes it from its client, if it is still the client's, and leaves
/// everything else alone.
pub proof fn law_closing_concerns_one_session(
    s: Sessions,
    peer: SocketAddress,
    id: u64,
    other: SocketAddress,
)
    ensures
        ({
            let t = without_session(s, peer, id);
            &&& t.next_id == s.next_id
            &&& t.by_peer.dom().contains(peer) <==> s.by_peer.dom().contains(peer)
                && s.by_peer[peer].id != id
            &&& other != peer ==> t.by_peer.dom().contains(other) == s.by_peer.dom().contains(other)
            &&& t.by_peer.dom().contains(other) ==> t.by_peer[other] == s.by_peer[other]
        }),
{
}

} // verus!
