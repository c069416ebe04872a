//! Core engine for a hierarchical goal tracker.
//!
//! A profile owns a forest of goals in a flat id-keyed arena.  Each goal
//! carries a name, two effort counters and an ordered list of child ids.
//! An iterative, stack-based traversal engine turns the flat representation
//! into nested read-only snapshots annotated with layout metrics, collects
//! descendant ids, and partitions subtrees with predicates.

pub mod appstate;
pub mod arena;
pub mod cursor;
pub mod errorlog;
pub mod event;
pub mod goal;
pub mod profile;
pub mod query;
pub mod request;

pub use event::UtcDateTime;
pub use goal::{Goal, GoalEvent, GoalId, GoalOperationError, GoalRelationship, PopulatedGoal};
