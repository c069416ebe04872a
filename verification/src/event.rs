//! Events: opaque scheduling records owned by the surrounding system.  The
//! store's only responsibility toward them is the list of goal relationships
//! each one carries.  Instants and dates are plain integer values (seconds
//! since the Unix epoch, days since the epoch); the shell converts from its
//! own calendar types at the boundary.

use vstd::prelude::*;
use crate::goal::{GoalId, GoalRelationship};

verus! {

/// Opaque event id, allocated from a per-store monotonic counter.
#[derive(Debug, Clone, Copy, PartialEq, Eq, Hash, Structural)]
pub struct EventId(pub u32);

/// An instant in civil time, as seconds since the Unix epoch.
#[derive(Debug, Clone, Copy, PartialEq, Eq, Structural)]
pub struct UtcDateTime {
    pub seconds_since_epoch: i64,
}

/// A calendar day, as days since the Unix epoch.
#[derive(Debug, Clone, Copy, PartialEq, Eq, Structural)]
pub struct CivilDate {
    pub days_since_epoch: i64,
}

/// The three coarse parts of a day.
#[derive(Debug, Clone, Copy, PartialEq, Eq, Structural)]
pub enum TimeOfDay {
    Morning,
    Midday,
    Evening,
}

impl TimeOfDay {
    /// Whether `self` is the same part of the day as `other` or a later one.
    pub fn during_or_after(&self, other: TimeOfDay) -> (r: bool)
        ensures
            r == match *self {
                TimeOfDay::Morning => other == TimeOfDay::Morning,
                TimeOfDay::Midday => other == TimeOfDay::Morning || other == TimeOfDay::Midday,
                TimeOfDay::Evening => true,
            },
    {
        match self {
            TimeOfDay::Morning => other == TimeOfDay::Morning,
            TimeOfDay::Midday => other == TimeOfDay::Morning || other == TimeOfDay::Midday,
            TimeOfDay::Evening => true,
        }
    }
}

/// An event filling a block of time.
#[derive(Debug, Clone)]
pub struct BlockEvent {
    pub start: UtcDateTime,
    pub duration_seconds: i64,
    pub goal_relationships: Vec<GoalRelationship>,
}

/// An event at a single instant.
#[derive(Debug, Clone)]
pub struct InstantEvent {
    pub time: UtcDateTime,
    pub goal_relationships: Vec<GoalRelationship>,
}

/// An event pinned only to a day and a part of that day.
#[derive(Debug, Clone)]
pub struct FloatingEvent {
    pub date: CivilDate,
    pub time_of_day: TimeOfDay,
    pub goal_relationships: Vec<GoalRelationship>,
}

/// An opaque scheduling record holding zero or more goal relationships.
#[derive(Debug, Clone)]
pub enum Event {
    BlockEvent(BlockEvent),
    InstantEvent(InstantEvent),
    FloatingEvent(FloatingEvent),
}

/// The goal an individual relationship points at.
pub open spec fn rel_target(r: GoalRelationship) -> u32 {
    match r {
        GoalRelationship::Requires(g) => g.0,
        GoalRelationship::Ends(g) => g.0,
        GoalRelationship::WorksOn(g) => g.0,
        GoalRelationship::Starts(g) => g.0,
    }
}

/// Two events of the same kind whose non-relationship payload agrees.
pub open spec fn event_shell_eq(a: Event, b: Event) -> bool {
    match (a, b) {
        (Event::BlockEvent(x), Event::BlockEvent(y)) => x.start == y.start && x.duration_seconds
            == y.duration_seconds,
        (Event::InstantEvent(x), Event::InstantEvent(y)) => x.time == y.time,
        (Event::FloatingEvent(x), Event::FloatingEvent(y)) => x.date == y.date && x.time_of_day
            == y.time_of_day,
        _ => false,
    }
}

/// The goal a relationship points at, as executable code.
pub fn relationship_target(r: &GoalRelationship) -> (t: GoalId)
    ensures
        t.0 == rel_target(*r),
{
    match r {
        GoalRelationship::Requires(g) => *g,
        GoalRelationship::Ends(g) => *g,
        GoalRelationship::WorksOn(g) => *g,
        GoalRelationship::Starts(g) => *g,
    }
}

impl Event {
    /// The relationships the event carries, whatever its kind.
    pub open spec fn spec_goal_relationships(self) -> Seq<GoalRelationship> {
        match self {
            Event::BlockEvent(e) => e.goal_relationships@,
            Event::InstantEvent(e) => e.goal_relationships@,
            Event::FloatingEvent(e) => e.goal_relationships@,
        }
    }

    pub fn block_event(
        start: UtcDateTime,
        duration_seconds: i64,
        goal_relationships: Vec<GoalRelationship>,
    ) -> (r: Event)
        ensures
            r == Event::BlockEvent(
                BlockEvent { start, duration_seconds, goal_relationships },
            ),
    {
        Event::BlockEvent(BlockEvent { start, duration_seconds, goal_relationships })
    }

    pub fn instant_event(time: UtcDateTime, goal_relationships: Vec<GoalRelationship>) -> (r:
        Event)
        ensures
            r == Event::InstantEvent(InstantEvent { time, goal_relationships }),
    {
        Event::InstantEvent(InstantEvent { time, goal_relationships })
    }

    pub fn floating_event(
        date: CivilDate,
        time_of_day: TimeOfDay,
        goal_relationships: Vec<GoalRelationship>,
    ) -> (r: Event)
        ensures
            r == Event::FloatingEvent(FloatingEvent { date, time_of_day, goal_relationships }),
    {
        Event::FloatingEvent(FloatingEvent { date, time_of_day, goal_relationships })
    }

    pub fn goal_relationships(&self) -> (r: &Vec<GoalRelationship>)
        ensures
            r@ == self.spec_goal_relationships(),
    {
        match self {
            Event::BlockEvent(e) => &e.goal_relationships,
            Event::InstantEvent(e) => &e.goal_relationships,
            Event::FloatingEvent(e) => &e.goal_relationships,
        }
    }

    pub fn goal_relationships_mut(&mut self) -> (r: &mut Vec<GoalRelationship>)
        ensures
            (*r)@ == old(self).spec_goal_relationships(),
            final(self).spec_goal_relationships() == (*final(r))@,
            *old(self) is BlockEvent ==> *final(self) is BlockEvent
                && (*final(self))->BlockEvent_0.start == (*old(self))->BlockEvent_0.start
                && (*final(self))->BlockEvent_0.duration_seconds
                == (*old(self))->BlockEvent_0.duration_seconds,
            *old(self) is InstantEvent ==> *final(self) is InstantEvent
                && (*final(self))->InstantEvent_0.time == (*old(self))->InstantEvent_0.time,
            *old(self) is FloatingEvent ==> *final(self) is FloatingEvent
                && (*final(self))->FloatingEvent_0.date == (*old(self))->FloatingEvent_0.date
                && (*final(self))->FloatingEvent_0.time_of_day
                == (*old(self))->FloatingEvent_0.time_of_day,
    {
        match self {
            Event::BlockEvent(e) => &mut e.goal_relationships,
            Event::InstantEvent(e) => &mut e.goal_relationships,
            Event::FloatingEvent(e) => &mut e.goal_relationships,
        }
    }
}

} // verus!
