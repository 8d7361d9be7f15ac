//! When work counts as cancelled, and how long it may take.

use vstd::prelude::*;

verus! {

/// What work that a host does is told about its end: whether it was cancelled, whether what it is
/// part of was, and when it must be done, on a clock in nanoseconds.
#[derive(Debug, Clone, Copy, PartialEq, Eq, Structural)]
pub struct Cancellation {
    pub own: bool,
    /// What the work is part of, if it is part of something.
    pub parent: Option<bool>,
    pub deadline: Option<u128>,
}

impl Cancellation {
    /// Work outside any execution.
    pub fn unscoped() -> (r: Self)
        ensures
            r == (Cancellation { own: false, parent: None, deadline: None }),
    {
        Cancellation { own: false, parent: None, deadline: None }
    }

    /// The time left.
    pub open spec fn left(&self, now: u128) -> Option<u128> {
        match self.deadline {
            None => None,
            Some(deadline) => Some(
                if deadline > now {
                    (deadline - now) as u128
                } else {
                    0
                },
            ),
        }
    }

    pub fn remaining(&self, now: u128) -> (r: Option<u128>)
        ensures
            r == self.left(now),
    {
        match self.deadline {
            None => None,
            Some(deadline) => Some(deadline.saturating_sub(now)),
        }
    }

    /// Whether the work should stop: it or what it is part of was cancelled, or its time is up.
    pub open spec fn stopped(&self, now: u128) -> bool {
        self.own || self.parent == Some(true) || self.left(now) == Some(0u128)
    }

    pub fn is_cancelled(&self, now: u128) -> (r: bool)
        ensures
            r == self.stopped(now),
    {
        let parent = match self.parent {
            Some(parent) => parent,
            None => false,
        };
        let expired = match self.remaining(now) {
            Some(left) => left == 0,
            None => false,
        };
        self.own || parent || expired
    }

    /// The deadline of a part of the work, which is no later than that of the whole.
    pub fn child_deadline(&self, deadline: u128) -> (r: u128)
        ensures
            r <= deadline,
            match self.deadline {
                None => r == deadline,
                Some(outer) => r == if outer < deadline {
                    outer
                } else {
                    deadline
                },
            },
    {
        match self.deadline {
            None => deadline,
            Some(outer) => {
                if outer < deadline {
                    outer
                } else {
                    deadline
                }
            },
        }
    }
}

/// The deadline of an execution that starts now: at once, where it could not be told.
pub fn execution_deadline(now: u128, wall_time: u128) -> (r: u128)
    ensures
        r == if now + wall_time <= u128::MAX {
            now + wall_time
        } else {
            now as int
        },
{
    match now.checked_add(wall_time) {
        Some(deadline) => deadline,
        None => now,
    }
}

/// When the whole stops, so does each part of it, at the latest at the same time.
pub proof fn law_parts_stop_with_the_whole(whole: Cancellation, part: Cancellation, now: u128)
    requires
        whole.own ==> part.parent == Some(true),
        whole.parent == Some(true) ==> part.parent == Some(true),
        whole.deadline matches Some(outer) ==> (part.deadline matches Some(inner) && inner <= outer),
        whole.stopped(now),
    ensures
        part.stopped(now),
{
}

/// The time left is what lies between now and the deadline: it runs out at the deadline and not
/// before, and what has stopped stays so.
pub proof fn law_time_runs_out_at_the_deadline(work: Cancellation, now: u128, later: u128)
    requires
        now <= later,
    ensures
        work.deadline is None ==> work.left(now) is None,
        work.deadline is Some && now <= work.deadline->Some_0 ==> work.left(now) == Some(
            (work.deadline->Some_0 - now) as u128,
        ),
        !work.own && work.parent != Some(true) ==> (work.stopped(now) <==> work.deadline is Some
            && work.deadline->Some_0 <= now),
        work.stopped(now) ==> work.stopped(later),
{
}

} // verus!
