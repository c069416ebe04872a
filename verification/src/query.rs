//! Mapping instants to coarse times of day, and query engines over a store
//! and a reference instant.  Times of day are plain seconds after midnight;
//! the shell converts from its own time types at the boundary.

use vstd::prelude::*;
use crate::arena::IdSet;
use crate::event::TimeOfDay;

verus! {

/// Queries over the goals of a store paired with a reference instant.
pub trait GoalQueryEngine {
    /// The engine's own consistency condition.
    spec fn query_inv(&self) -> bool;

    /// The goals whose effort to date has not reached their effort to
    /// complete.
    fn unfinished_goals(&self) -> IdSet
        requires
            self.query_inv(),
    ;

    /// The goals whose effort to date has reached their effort to complete.
    fn finished_goals(&self) -> IdSet
        requires
            self.query_inv(),
    ;

    /// Every goal id in the store.
    fn goal_ids(&self) -> IdSet
        requires
            self.query_inv(),
    ;
}

/// A time of day, as seconds after midnight.
#[derive(Debug, Clone, Copy, PartialEq, Eq, Structural)]
pub struct ClockTime {
    pub seconds_after_midnight: u32,
}

/// When midday and evening begin; everything earlier is morning.
#[derive(Debug, Clone, Copy)]
pub struct TimeOfDayConfiguration {
    pub midday_start: ClockTime,
    pub evening_start: ClockTime,
}

/// Rejection of a configuration whose midday would not precede its evening.
#[derive(Debug, Clone, Copy)]
pub enum TimeOfDayCreationError {
    SuppliedMiddayIsAfterEvening { midday_start: ClockTime, evening_start: ClockTime },
}

impl TimeOfDayConfiguration {
    /// Accepts exactly the configurations where midday starts before evening.
    pub fn from_start_of_midday_and_evening(midday_start: ClockTime, evening_start: ClockTime)
        -> (r: Result<TimeOfDayConfiguration, TimeOfDayCreationError>)
        ensures
            midday_start.seconds_after_midnight < evening_start.seconds_after_midnight ==> (
            r matches Ok(c) && c.midday_start == midday_start && c.evening_start == evening_start),
            midday_start.seconds_after_midnight >= evening_start.seconds_after_midnight ==> (
            r matches Err(TimeOfDayCreationError::SuppliedMiddayIsAfterEvening {
                midday_start: m,
                evening_start: e,
            }) && m == midday_start && e == evening_start),
    {
        if midday_start.seconds_after_midnight < evening_start.seconds_after_midnight {
            Ok(TimeOfDayConfiguration { midday_start, evening_start })
        } else {
            Err(
                TimeOfDayCreationError::SuppliedMiddayIsAfterEvening {
                    midday_start,
                    evening_start,
                },
            )
        }
    }

    /// Which part of the day a time falls in.
    pub open spec fn spec_map_time(self, time: ClockTime) -> TimeOfDay {
        if time.seconds_after_midnight < self.midday_start.seconds_after_midnight {
            TimeOfDay::Morning
        } else if time.seconds_after_midnight < self.evening_start.seconds_after_midnight {
            TimeOfDay::Midday
        } else {
            TimeOfDay::Evening
        }
    }

    pub fn map_time(&self, time: ClockTime) -> (r: TimeOfDay)
        ensures
            r == self.spec_map_time(time),
    {
        if time.seconds_after_midnight < self.midday_start.seconds_after_midnight {
            TimeOfDay::Morning
        } else if time.seconds_after_midnight < self.evening_start.seconds_after_midnight {
            TimeOfDay::Midday
        } else {
            TimeOfDay::Evening
        }
    }
}

impl Default for TimeOfDayConfiguration {
    /// Midday begins at noon and evening at six in the afternoon.
    fn default() -> (r: TimeOfDayConfiguration)
        ensures
            r.midday_start.seconds_after_midnight == 43200,
            r.evening_start.seconds_after_midnight == 64800,
    {
        TimeOfDayConfiguration {
            midday_start: ClockTime { seconds_after_midnight: 43200 },
            evening_start: ClockTime { seconds_after_midnight: 64800 },
        }
    }
}

} // verus!
