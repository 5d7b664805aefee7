//! Connecting to the active target of a pool, falling through the priority list.
//!
//! The loop decides which target is tried next and when to give up; whoever runs
//! it connects and reports back.

use crate::pool::{Change, PoolState, TargetPool};
use crate::text::join3;
use vstd::prelude::*;
use vstd::string::*;

verus! {

/// What is to be done next.
#[derive(Debug)]
pub enum DialStep {
    /// Connect to this target.
    Try { index: usize, target: String },
    /// Every target was tried: report this.
    GiveUp { message: String },
}

/// An attempt to reach one of the targets of a pool.
#[derive(Debug)]
pub struct Dial {
    /// How many more targets may be tried.
    left: usize,
    last_error: Option<String>,
}

/// The state of an attempt.
pub struct DialState {
    pub left: nat,
    pub last_error: Option<Seq<char>>,
}

impl View for Dial {
    type V = DialState;

    closed spec fn view(&self) -> DialState {
        DialState {
            left: self.left as nat,
            last_error: match self.last_error {
                Some(message) => Some(message@),
                None => None,
            },
        }
    }
}

/// What is reported once nothing is left to try.
pub open spec fn final_message(s: DialState) -> Seq<char> {
    match s.last_error {
        Some(message) => message,
        None => "no targets"@,
    }
}

/// The attempts that are left after the active target failed: none when the active
/// target did not move, as everything is down then.
pub open spec fn left_after(left: nat, pool: PoolState, index: nat) -> nat {
    if pool.with_health(index as int, false).active == index {
        0
    } else {
        (left - 1) as nat
    }
}

impl Dial {
    /// An attempt that tries as many targets as there are.
    pub fn new(pool: &TargetPool) -> (r: Dial)
        ensures
            r@ == (DialState { left: pool@.targets.len(), last_error: None }),
    {
        Dial { left: pool.len(), last_error: None }
    }

    /// What is to be done next: try the active target, or give up.
    pub fn next(&self, pool: &TargetPool) -> (r: DialStep)
        requires
            pool@.wf(),
        ensures
            if self@.left == 0 {
                r matches DialStep::GiveUp { message } && message@ == final_message(self@)
            } else {
                r matches DialStep::Try { index, target } && index == pool@.active && target@
                    == pool@.targets[index as int]
            },
    {
        if self.left == 0 {
            let message: String = match &self.last_error {
                Some(message) => message.clone(),
                None => "no targets".to_owned(),
            };
            return DialStep::GiveUp { message };
        }
        let (index, target) = pool.pick();
        DialStep::Try { index, target: target.to_owned() }
    }

    /// The target could not be reached.
    pub fn failed(&mut self, pool: &mut TargetPool, index: usize, message: String) -> (r: Change)
        requires
            old(pool)@.wf(),
            index < old(pool)@.targets.len(),
            old(self)@.left > 0,
        ensures
            final(pool)@ == old(pool)@.with_health(index as int, false),
            final(pool)@.wf(),
            final(pool).user_name() == old(pool).user_name(),
            r == old(pool)@.health_change(index as int, false),
            final(self)@ == (DialState {
                left: left_after(old(self)@.left, old(pool)@, index as nat),
                last_error: Some(message@),
            }),
    {
        self.last_error = Some(message);
        let change = pool.mark_down(index);
        if pool.pick().0 == index {
            self.left = 0;
        } else {
            self.left = self.left - 1;
        }
        change
    }
}

/// The message of a TCP connection that failed.
pub fn connect_failure(target: &str, reason: &str) -> (r: String)
    ensures
        r@ == "connect to "@ + target@ + (" failed: "@ + reason@),
{
    failure("connect to ", target, reason)
}

/// The message of a TCP connection that timed out.
pub fn connect_timeout(target: &str) -> (r: String)
    ensures
        r@ == "connect to "@ + target@ + " timed out"@,
{
    join3("connect to ", target, " timed out")
}

/// The message of a UDP session that could not be opened.
pub fn session_failure(target: &str, reason: &str) -> (r: String)
    ensures
        r@ == "session to "@ + target@ + (" failed: "@ + reason@),
{
    failure("session to ", target, reason)
}

fn failure(what: &str, target: &str, reason: &str) -> (r: String)
    ensures
        r@ == what@ + target@ + (" failed: "@ + reason@),
{
    let mut why: String = String::new();
    why.append(" failed: ");
    why.append(reason);
    proof {
        assert(why@ =~= " failed: "@ + reason@);
    }
    join3(what, target, why.as_str())
}

/// An attempt that is given up reports the last failure; without any, that there are no
/// targets.
pub proof fn law_last_failure_is_reported(left: nat, message: Seq<char>)
    ensures
        final_message(DialState { left, last_error: Some(message) }) == message,
        final_message(DialState { left, last_error: None }) == "no targets"@,
{
}

} // verus!
