//! The goal store: owns all goals and events in flat id-keyed arenas, a
//! focus set, and two monotonic id counters, and exposes the mutation
//! primitives.

pub mod goal_traversal;

use vstd::prelude::*;
use crate::arena::{IdMap, IdSet};
use crate::event::{Event, EventId, UtcDateTime};
use crate::goal::{Goal, GoalId, GoalRelationship, PopulatedGoal};
use crate::query::TimeOfDayConfiguration;
use crate::profile::goal_traversal::forest_wf;

verus! {

/// The goal store.  Root goals are the ids that appear in no children list;
/// that is derived, never stored.
#[derive(Debug)]
pub struct Profile {
    pub goal_id_count: u32,
    pub event_id_count: u32,
    pub focused_goals: IdSet,
    pub goals: IdMap<Goal>,
    pub events: IdMap<Event>,
    pub time_of_day_config: TimeOfDayConfiguration,
}

/// A store together with a reference instant, for time-dependent queries.
pub struct ProfileAndDateTime(pub Profile, pub UtcDateTime);

impl Profile {
    /// Internal consistency: the arenas are well formed, the goal map is a
    /// well-formed forest, and every id is below its counter (ids are never
    /// reused).
    pub open spec fn wf(self) -> bool {
        &&& self.goals.wf()
        &&& self.events.wf()
        &&& self.focused_goals.wf()
        &&& forest_wf(self.goals@)
        &&& forall|k: u32| #[trigger] self.goals@.contains_key(k) ==> k < self.goal_id_count
        &&& forall|k: u32| #[trigger] self.events@.contains_key(k) ==> k < self.event_id_count
    }

    pub fn time_of_day_config(&self) -> (r: &TimeOfDayConfiguration)
        ensures
            r == &self.time_of_day_config,
    {
        &self.time_of_day_config
    }

    pub fn set_time_of_day_config(&mut self, config: TimeOfDayConfiguration)
        ensures
            final(self).time_of_day_config == config,
            final(self).goal_id_count == old(self).goal_id_count,
            final(self).event_id_count == old(self).event_id_count,
            final(self).focused_goals == old(self).focused_goals,
            final(self).goals == old(self).goals,
            final(self).events == old(self).events,
    {
        self.time_of_day_config = config;
    }

    /// Mark exactly one goal as focused; true if the id is known.
    pub fn focus_single_goal(&mut self, id: GoalId) -> (r: bool)
        requires
            old(self).wf(),
        ensures
            final(self).wf(),
            r == old(self).goals@.contains_key(id.0),
            final(self).focused_goals@ == if r {
                old(self).focused_goals@.insert(id.0)
            } else {
                old(self).focused_goals@
            },
            !r ==> final(self).focused_goals == old(self).focused_goals,
            final(self).goals == old(self).goals,
            final(self).events == old(self).events,
            final(self).goal_id_count == old(self).goal_id_count,
            final(self).event_id_count == old(self).event_id_count,
            final(self).time_of_day_config == old(self).time_of_day_config,
    {
        if self.goals.contains_key(id.0) {
            self.focused_goals.insert(id.0);
            true
        } else {
            false
        }
    }

    /// Clear the focus mark of exactly one goal; true if it was focused.
    pub fn unfocus_single_goal(&mut self, id: GoalId) -> (r: bool)
        requires
            old(self).wf(),
        ensures
            final(self).wf(),
            r == old(self).focused_goals@.contains(id.0),
            final(self).focused_goals@ == old(self).focused_goals@.remove(id.0),
            !r ==> final(self).focused_goals == old(self).focused_goals,
            final(self).goals == old(self).goals,
            final(self).events == old(self).events,
            final(self).goal_id_count == old(self).goal_id_count,
            final(self).event_id_count == old(self).event_id_count,
            final(self).time_of_day_config == old(self).time_of_day_config,
    {
        if self.focused_goals.contains(id.0) {
            self.focused_goals.remove(id.0);
            true
        } else {
            proof {
                assert(self.focused_goals@ =~= old(self).focused_goals@.remove(id.0));
            }
            false
        }
    }

    /// Insert a fresh root goal under the next id.
    pub fn add_goal(&mut self, goal: Goal) -> (r: GoalId)
        requires
            old(self).wf(),
            old(self).goal_id_count < u32::MAX,
            goal.children@.len() == 0,
        ensures
            final(self).wf(),
            r.0 == old(self).goal_id_count,
            !old(self).goals@.contains_key(r.0),
            final(self).goals@ == old(self).goals@.insert(r.0, goal),
            final(self).goal_id_count == old(self).goal_id_count + 1,
            final(self).focused_goals == old(self).focused_goals,
            final(self).events == old(self).events,
            final(self).event_id_count == old(self).event_id_count,
            final(self).time_of_day_config == old(self).time_of_day_config,
    {
        let goal_id = GoalId(self.goal_id_count);
        self.goal_id_count = self.goal_id_count + 1;
        proof {
            assert(!self.goals@.contains_key(goal_id.0));
        }
        self.goals.insert_fresh(goal_id.0, goal);
        proof {
            lemma_forest_wf_insert_childless(old(self).goals@, goal_id.0, goal);
        }
        goal_id
    }

    /// Replace a goal's required effort, returning the previous value, or
    /// nothing if the id is unknown.
    pub fn rescope_goal(&mut self, goal_id: GoalId, new_effort_to_complete: u32) -> (r: Option<
        u32,
    >)
        requires
            old(self).wf(),
        ensures
            final(self).wf(),
            match r {
                Some(prev) => old(self).goals@.contains_key(goal_id.0) && prev == old(self).goals@[goal_id.0].effort_to_complete && final(self).goals@.dom() == old(self).goals@.dom() && final(self).goals@[goal_id.0].effort_to_complete
                    == new_effort_to_complete && final(self).goals@[goal_id.0].effort_to_date
                    == old(self).goals@[goal_id.0].effort_to_date && final(self).goals@[goal_id.0].name == old(self).goals@[goal_id.0].name && final(self).goals@[goal_id.0].children
                    == old(self).goals@[goal_id.0].children && (forall|k: u32|
                    #[trigger] old(self).goals@.contains_key(k) && k != goal_id.0 ==> final(self).goals@[k] == old(self).goals@[k]),
                None => !old(self).goals@.contains_key(goal_id.0) && final(self).goals == old(self).goals,
            },
            final(self).focused_goals == old(self).focused_goals,
            final(self).events == old(self).events,
            final(self).goal_id_count == old(self).goal_id_count,
            final(self).event_id_count == old(self).event_id_count,
            final(self).time_of_day_config == old(self).time_of_day_config,
    {
        let ghost m0 = self.goals@;
        match self.goals.get_mut(goal_id.0) {
            Some(goal) => {
                let original_effort_to_complete = goal.effort_to_complete();
                goal.rescope(new_effort_to_complete);
                proof {
                    lemma_forest_wf_same_children(m0, goal_id.0, *final(goal));
                }
                Some(original_effort_to_complete)
            },
            None => None,
        }
    }

    /// Rename a goal, returning the old name, or nothing if the id is
    /// unknown.
    pub fn rename_goal(&mut self, goal_id: GoalId, new_name: String) -> (r: Option<String>)
        requires
            old(self).wf(),
        ensures
            final(self).wf(),
            match r {
                Some(prev) => old(self).goals@.contains_key(goal_id.0) && prev@ == old(self).goals@[goal_id.0].name@ && final(self).goals@.dom() == old(self).goals@.dom()
                    && final(self).goals@[goal_id.0].name@ == new_name@ && final(self).goals@[goal_id.0].effort_to_date == old(self).goals@[goal_id.0].effort_to_date && final(self).goals@[goal_id.0].effort_to_complete == old(self).goals@[goal_id.0].effort_to_complete && final(self).goals@[goal_id.0].children == old(self).goals@[goal_id.0].children && (forall|k: u32|
                    #[trigger] old(self).goals@.contains_key(k) && k != goal_id.0 ==> final(self).goals@[k] == old(self).goals@[k]),
                None => !old(self).goals@.contains_key(goal_id.0) && final(self).goals == old(self).goals,
            },
            final(self).focused_goals == old(self).focused_goals,
            final(self).events == old(self).events,
            final(self).goal_id_count == old(self).goal_id_count,
            final(self).event_id_count == old(self).event_id_count,
            final(self).time_of_day_config == old(self).time_of_day_config,
    {
        let ghost m0 = self.goals@;
        match self.goals.get_mut(goal_id.0) {
            Some(goal) => {
                let old_name = goal.rename(new_name);
                proof {
                    lemma_forest_wf_same_children(m0, goal_id.0, *final(goal));
                }
                Some(old_name)
            },
            None => None,
        }
    }

    /// Append a new event under the next id.
    pub fn add_event(&mut self, event: Event) -> (r: EventId)
        requires
            old(self).wf(),
            old(self).event_id_count < u32::MAX,
        ensures
            final(self).wf(),
            r.0 == old(self).event_id_count,
            final(self).events@ == old(self).events@.insert(r.0, event),
            final(self).event_id_count == old(self).event_id_count + 1,
            final(self).goals == old(self).goals,
            final(self).focused_goals == old(self).focused_goals,
            final(self).goal_id_count == old(self).goal_id_count,
            final(self).time_of_day_config == old(self).time_of_day_config,
    {
        let event_id = EventId(self.event_id_count);
        self.event_id_count = self.event_id_count + 1;
        self.events.insert_fresh(event_id.0, event);
        event_id
    }

    /// Remove an event, returning it, or nothing if the id is unknown.
    pub fn remove_event(&mut self, event_id: EventId) -> (r: Option<Event>)
        requires
            old(self).wf(),
        ensures
            final(self).wf(),
            match r {
                Some(e) => old(self).events@.contains_key(event_id.0) && e == old(self).events@[event_id.0] && final(self).events@ == old(self).events@.remove(
                    event_id.0,
                ),
                None => !old(self).events@.contains_key(event_id.0) && final(self).events == old(self).events,
            },
            final(self).goals == old(self).goals,
            final(self).focused_goals == old(self).focused_goals,
            final(self).goal_id_count == old(self).goal_id_count,
            final(self).event_id_count == old(self).event_id_count,
            final(self).time_of_day_config == old(self).time_of_day_config,
    {
        self.events.remove(event_id.0)
    }

    /// Pair the store with a reference instant for time-dependent queries.
    pub fn with_datetime(self, datetime: UtcDateTime) -> (r: ProfileAndDateTime)
        ensures
            r.0 == self,
            r.1 == datetime,
    {
        ProfileAndDateTime(self, datetime)
    }

    pub fn get_event(&self, id: EventId) -> (r: Option<&Event>)
        requires
            self.wf(),
        ensures
            match r {
                Some(e) => self.events@.contains_key(id.0) && *e == self.events@[id.0],
                None => !self.events@.contains_key(id.0),
            },
    {
        self.events.get(id.0)
    }

    pub fn get_event_mut(&mut self, id: EventId) -> (r: Option<&mut Event>)
        requires
            old(self).wf(),
        ensures
            match r {
                Some(e) => old(self).events@.contains_key(id.0) && *e == old(self).events@[id.0]
                    && final(self).events@ == old(self).events@.insert(id.0, *final(e)) && final(self).wf(),
                None => !old(self).events@.contains_key(id.0) && final(self).events == old(self).events && final(self).wf(),
            },
            final(self).goals == old(self).goals,
            final(self).focused_goals == old(self).focused_goals,
            final(self).goal_id_count == old(self).goal_id_count,
            final(self).event_id_count == old(self).event_id_count,
            final(self).time_of_day_config == old(self).time_of_day_config,
    {
        let ghost m0 = self.events@;
        self.events.get_mut(id.0)
    }

    pub fn get_goal(&self, id: GoalId) -> (r: Option<&Goal>)
        requires
            self.wf(),
        ensures
            match r {
                Some(g) => self.goals@.contains_key(id.0) && *g == self.goals@[id.0],
                None => !self.goals@.contains_key(id.0),
            },
    {
        self.goals.get(id.0)
    }

    /// Mutable access to one goal.  The caller sees in the contract that the
    /// store afterwards holds whatever it left behind the reference; the
    /// store stays well formed as long as the children list is not touched.
    pub fn get_goal_mut(&mut self, id: GoalId) -> (r: Option<&mut Goal>)
        requires
            old(self).wf(),
        ensures
            match r {
                Some(g) => old(self).goals@.contains_key(id.0) && *g == old(self).goals@[id.0]
                    && final(self).goals@ == old(self).goals@.insert(id.0, *final(g)) && (final(g).child_ids() == old(self).goals@[id.0].child_ids() ==> final(self).wf()),
                None => !old(self).goals@.contains_key(id.0) && final(self).goals == old(self).goals && final(self).wf(),
            },
            final(self).focused_goals == old(self).focused_goals,
            final(self).events == old(self).events,
            final(self).goal_id_count == old(self).goal_id_count,
            final(self).event_id_count == old(self).event_id_count,
            final(self).time_of_day_config == old(self).time_of_day_config,
    {
        let ghost m0 = self.goals@;
        let r = self.goals.get_mut(id.0);
        proof {
            match r {
                Some(ref g) => {
                    lemma_forest_wf_same_children_cond(m0, id.0, *final(*g));
                },
                None => {},
            }
        }
        r
    }

    pub fn focused_goals(&self) -> (r: &IdSet)
        ensures
            r == &self.focused_goals,
    {
        &self.focused_goals
    }

    /// The ids of all goals that are not focused, in key order.
    pub fn unfocused_goals(&self) -> (r: IdSet)
        requires
            self.wf(),
        ensures
            r.wf(),
            r@ == self.goals@.dom().difference(self.focused_goals@),
    {
        proof {
            self.goals.lemma_view();
        }
        let n = self.goals.len();
        let mut out = IdSet::new();
        let mut i: usize = 0;
        while i < n
            invariant
                self.wf(),
                n == self.goals.entry_seq().len(),
                i <= n,
                out.wf(),
                forall|x: u32|
                    #[trigger] out@.contains(x) <==> exists|j: int|
                        0 <= j < i && #[trigger] self.goals.entry_seq()[j].0 == x
                            && !self.focused_goals@.contains(x),
            decreases n - i,
        {
            let id = self.goals.key_at(i);
            if !self.focused_goals.contains(id) {
                out.insert(id);
            }
            i = i + 1;
        }
        proof {
            self.goals.lemma_view();
            assert forall|x: u32| #[trigger] out@.contains(x) implies self.goals@.dom().difference(
                self.focused_goals@,
            ).contains(x) by {
                let j = choose|j: int|
                    0 <= j < n && #[trigger] self.goals.entry_seq()[j].0 == x
                        && !self.focused_goals@.contains(x);
                assert(self.goals.key_seq()[j] == x);
            }
            assert forall|x: u32|
                self.goals@.dom().difference(self.focused_goals@).contains(x) implies
                out@.contains(x) by {
                let j = choose|j: int|
                    0 <= j < self.goals.key_seq().len() && self.goals.key_seq()[j] == x;
                assert(self.goals.entry_seq()[j].0 == x);
            }
            assert(out@ =~= self.goals@.dom().difference(self.focused_goals@));
        }
        out
    }

    /// The ids of all goals, in key order.
    pub fn goal_ids(&self) -> (r: IdSet)
        requires
            self.wf(),
        ensures
            r.wf(),
            r@ == self.goals@.dom(),
    {
        proof {
            self.goals.lemma_view();
        }
        let n = self.goals.len();
        let mut out = IdSet::new();
        let mut i: usize = 0;
        while i < n
            invariant
                self.wf(),
                n == self.goals.entry_seq().len(),
                i <= n,
                out.wf(),
                forall|x: u32|
                    #[trigger] out@.contains(x) <==> exists|j: int|
                        0 <= j < i && #[trigger] self.goals.entry_seq()[j].0 == x,
            decreases n - i,
        {
            let id = self.goals.key_at(i);
            out.insert(id);
            i = i + 1;
        }
        proof {
            self.goals.lemma_view();
            assert forall|x: u32| #[trigger] out@.contains(x) implies self.goals@.dom().contains(x) by {
                let j = choose|j: int| 0 <= j < n && #[trigger] self.goals.entry_seq()[j].0 == x;
                assert(self.goals.key_seq()[j] == x);
            }
            assert forall|x: u32| self.goals@.dom().contains(x) implies out@.contains(x) by {
                let j = choose|j: int|
                    0 <= j < self.goals.key_seq().len() && self.goals.key_seq()[j] == x;
                assert(self.goals.entry_seq()[j].0 == x);
            }
            assert(out@ =~= self.goals@.dom());
        }
        out
    }
}

impl Default for Profile {
    /// An empty store: no goals, no events, nothing focused, counters at 0.
    fn default() -> (r: Profile)
        ensures
            r.wf(),
            r.goal_id_count == 0,
            r.event_id_count == 0,
            r.goals@ == Map::<u32, Goal>::empty(),
            r.events@ == Map::<u32, Event>::empty(),
            r.focused_goals@ == Set::<u32>::empty(),
            r.time_of_day_config.midday_start.seconds_after_midnight == 43200,
            r.time_of_day_config.evening_start.seconds_after_midnight == 64800,
    {
        Profile {
            goal_id_count: 0,
            event_id_count: 0,
            focused_goals: IdSet::new(),
            goals: IdMap::new(),
            events: IdMap::new(),
            time_of_day_config: Default::default(),
        }
    }
}

impl ProfileAndDateTime {
    pub fn get_event(&self, id: EventId) -> (r: Option<&Event>)
        requires
            self.0.wf(),
        ensures
            match r {
                Some(e) => self.0.events@.contains_key(id.0) && *e == self.0.events@[id.0],
                None => !self.0.events@.contains_key(id.0),
            },
    {
        self.0.get_event(id)
    }

    pub fn get_event_mut(&mut self, id: EventId) -> (r: Option<&mut Event>)
        requires
            old(self).0.wf(),
        ensures
            match r {
                Some(e) => old(self).0.events@.contains_key(id.0) && *e == old(self).0.events@[id.0] && final(self).0.events@ == old(self).0.events@.insert(id.0, *final(e)) && final(self).0.wf(),
                None => !old(self).0.events@.contains_key(id.0) && final(self).0.events == old(self).0.events && final(self).0.wf(),
            },
            final(self).1 == old(self).1,
            final(self).0.goals == old(self).0.goals,
            final(self).0.focused_goals == old(self).0.focused_goals,
            final(self).0.goal_id_count == old(self).0.goal_id_count,
            final(self).0.event_id_count == old(self).0.event_id_count,
            final(self).0.time_of_day_config == old(self).0.time_of_day_config,
    {
        self.0.get_event_mut(id)
    }

    pub fn get_goal(&self, id: GoalId) -> (r: Option<&Goal>)
        requires
            self.0.wf(),
        ensures
            match r {
                Some(g) => self.0.goals@.contains_key(id.0) && *g == self.0.goals@[id.0],
                None => !self.0.goals@.contains_key(id.0),
            },
    {
        self.0.get_goal(id)
    }

    pub fn get_goal_mut(&mut self, id: GoalId) -> (r: Option<&mut Goal>)
        requires
            old(self).0.wf(),
        ensures
            match r {
                Some(g) => old(self).0.goals@.contains_key(id.0) && *g == old(self).0.goals@[id.0]
                    && final(self).0.goals@ == old(self).0.goals@.insert(id.0, *final(g)) && (
                final(g).child_ids() == old(self).0.goals@[id.0].child_ids() ==> final(self).0.wf()),
                None => !old(self).0.goals@.contains_key(id.0) && final(self).0.goals == old(self).0.goals && final(self).0.wf(),
            },
            final(self).1 == old(self).1,
            final(self).0.focused_goals == old(self).0.focused_goals,
            final(self).0.events == old(self).0.events,
            final(self).0.goal_id_count == old(self).0.goal_id_count,
            final(self).0.event_id_count == old(self).0.event_id_count,
    {
        self.0.get_goal_mut(id)
    }
}

/// Inserting a childless goal under a key that no existing children list can
/// mention keeps the forest well formed.
proof fn lemma_forest_wf_insert_childless(m: Map<u32, Goal>, k: u32, g: Goal)
    requires
        forest_wf(m),
        !m.dom().contains(k),
        g.children@.len() == 0,
    ensures
        forest_wf(m.insert(k, g)),
{
    let m2 = m.insert(k, g);
    assert(g.child_ids().len() == 0);
    assert forall|a: u32, i: int|
        m2.dom().contains(a) && 0 <= i < m2[a].child_ids().len() implies m2.dom().contains(
        #[trigger] m2[a].child_ids()[i],
    ) && m2[a].child_ids()[i] > a by {
        if a != k {
            assert(m2[a] == m[a]);
            assert(m.dom().contains(m[a].child_ids()[i]));
        }
    }
    assert forall|a: u32| #[trigger] m2.dom().contains(a) implies
        m2[a].child_ids().no_duplicates() by {
        if a != k {
            assert(m2[a] == m[a]);
        }
    }
    assert forall|k1: u32, k2: u32, c: u32|
        m2.dom().contains(k1) && m2.dom().contains(k2) && #[trigger] m2[k1].child_ids().contains(c)
            && #[trigger] m2[k2].child_ids().contains(c) implies k1 == k2 by {
        if k1 != k && k2 != k {
            assert(m2[k1] == m[k1] && m2[k2] == m[k2]);
        }
    }
}

/// Updating one goal without touching its children list keeps the forest
/// well formed.
proof fn lemma_forest_wf_same_children(m: Map<u32, Goal>, k: u32, g: Goal)
    requires
        forest_wf(m),
        m.dom().contains(k),
        g.child_ids() == m[k].child_ids(),
    ensures
        forest_wf(m.insert(k, g)),
{
    let m2 = m.insert(k, g);
    assert forall|a: u32, i: int|
        m2.dom().contains(a) && 0 <= i < m2[a].child_ids().len() implies m2.dom().contains(
        #[trigger] m2[a].child_ids()[i],
    ) && m2[a].child_ids()[i] > a by {
        if a == k {
            assert(m2[a].child_ids() == m[a].child_ids());
            assert(m.dom().contains(m[a].child_ids()[i]));
        } else {
            assert(m2[a] == m[a]);
            assert(m.dom().contains(m[a].child_ids()[i]));
        }
    }
    assert forall|a: u32| #[trigger] m2.dom().contains(a) implies
        m2[a].child_ids().no_duplicates() by {
        if a == k {
            assert(m2[a].child_ids() == m[a].child_ids());
        } else {
            assert(m2[a] == m[a]);
        }
    }
    assert forall|k1: u32, k2: u32, c: u32|
        m2.dom().contains(k1) && m2.dom().contains(k2) && #[trigger] m2[k1].child_ids().contains(c)
            && #[trigger] m2[k2].child_ids().contains(c) implies k1 == k2 by {
        assert(m[k1].child_ids().contains(c));
        assert(m[k2].child_ids().contains(c));
    }
}

/// The conditional form used by `get_goal_mut`.
proof fn lemma_forest_wf_same_children_cond(m: Map<u32, Goal>, k: u32, g: Goal)
    requires
        forest_wf(m),
        m.dom().contains(k),
    ensures
        g.child_ids() == m[k].child_ids() ==> forest_wf(m.insert(k, g)),
{
    if g.child_ids() == m[k].child_ids() {
        lemma_forest_wf_same_children(m, k, g);
    }
}


impl Profile {
    /// Reduce the parent's required effort (floored at 0), allocate the next
    /// id for `child_goal` and append it to the parent's children list.
    /// Returns the new id, or nothing if the parent is unknown.
    pub fn refine_goal(
        &mut self,
        child_goal: Goal,
        parent_goal_id: GoalId,
        parent_effort_removed: u32,
    ) -> (r: Option<GoalId>)
        requires
            old(self).wf(),
            old(self).goal_id_count < u32::MAX,
            child_goal.children@.len() == 0,
        ensures
            final(self).wf(),
            match r {
                Some(cid) => {
                    &&& old(self).goals@.contains_key(parent_goal_id.0)
                    &&& cid.0 == old(self).goal_id_count
                    &&& !old(self).goals@.contains_key(cid.0)
                    &&& final(self).goal_id_count == old(self).goal_id_count + 1
                    &&& final(self).goals@.dom() == old(self).goals@.dom().insert(cid.0)
                    &&& final(self).goals@[cid.0] == child_goal
                    &&& final(self).goals@[parent_goal_id.0].children@ == old(self).goals@[parent_goal_id.0].children@.push(cid)
                    &&& final(self).goals@[parent_goal_id.0].effort_to_complete == if old(
                        self,
                    ).goals@[parent_goal_id.0].effort_to_complete >= parent_effort_removed {
                        old(self).goals@[parent_goal_id.0].effort_to_complete
                            - parent_effort_removed
                    } else {
                        0
                    }
                    &&& final(self).goals@[parent_goal_id.0].effort_to_date == old(self).goals@[parent_goal_id.0].effort_to_date
                    &&& final(self).goals@[parent_goal_id.0].name == old(self).goals@[parent_goal_id.0].name
                    &&& forall|k: u32|
                        #[trigger] old(self).goals@.contains_key(k) && k != parent_goal_id.0
                            ==> final(self).goals@[k] == old(self).goals@[k]
                },
                None => !old(self).goals@.contains_key(parent_goal_id.0) && final(self).goals
                    == old(self).goals && final(self).goal_id_count == old(self).goal_id_count,
            },
            final(self).focused_goals == old(self).focused_goals,
            final(self).events == old(self).events,
            final(self).event_id_count == old(self).event_id_count,
            final(self).time_of_day_config == old(self).time_of_day_config,
    {
        let ghost m0 = self.goals@;
        let child_goal_id = GoalId(self.goal_id_count);
        match self.goals.get_mut(parent_goal_id.0) {
            Some(parent_goal) => {
                proof {
                    // The fresh id cannot already be a child: children are
                    // existing goals, and those all lie below the counter.
                    if parent_goal.children@.contains(child_goal_id) {
                        crate::profile::goal_traversal::lemma_child_ids_contains(
                            *parent_goal,
                            child_goal_id.0,
                        );
                        let i = choose|i: int|
                            0 <= i < parent_goal.child_ids().len() && parent_goal.child_ids()[i]
                                == child_goal_id.0;
                        assert(m0.dom().contains(m0[parent_goal_id.0].child_ids()[i]));
                        assert(false);
                    }
                }
                let refine_result = parent_goal.refine(child_goal_id, parent_effort_removed);
                proof {
                    assert(refine_result is Ok);
                }
            },
            None => {
                return None;
            },
        }
        self.goal_id_count = self.goal_id_count + 1;
        proof {
            assert forall|x: u32| #[trigger] self.goals@.contains_key(x) implies x
                < child_goal_id.0 by {
                if x == parent_goal_id.0 {
                } else {
                    assert(m0.contains_key(x));
                }
            }
        }
        let ghost m1 = self.goals@;
        self.goals.insert_fresh(child_goal_id.0, child_goal);
        proof {
            assert(m1[parent_goal_id.0].child_ids() =~= m0[parent_goal_id.0].child_ids().push(
                child_goal_id.0,
            ));
            lemma_forest_wf_refine(m0, parent_goal_id.0, m1[parent_goal_id.0], child_goal_id.0, child_goal);
            assert(self.goals@ == m1.insert(child_goal_id.0, child_goal));
            assert(self.goals@.dom() =~= m0.dom().insert(child_goal_id.0));
        }
        Some(child_goal_id)
    }

    /// Focus a goal and every descendant not yet focused; the returned set
    /// holds the goal itself and every descendant whose state changed.
    /// Nothing if the id is unknown.
    pub fn focus_goal(&mut self, goal_id: GoalId) -> (r: Option<IdSet>)
        requires
            old(self).wf(),
        ensures
            final(self).wf(),
            match r {
                Some(s) => {
                    &&& old(self).goals@.contains_key(goal_id.0)
                    &&& s.wf()
                    &&& s@ == goal_traversal::descendants(old(self).goals@, goal_id.0).difference(
                        old(self).focused_goals@,
                    ).insert(goal_id.0)
                    &&& final(self).focused_goals@ == old(self).focused_goals@.union(
                        goal_traversal::descendants(old(self).goals@, goal_id.0),
                    ).insert(goal_id.0)
                },
                None => !old(self).goals@.contains_key(goal_id.0) && final(self).focused_goals
                    == old(self).focused_goals,
            },
            final(self).goals == old(self).goals,
            final(self).events == old(self).events,
            final(self).goal_id_count == old(self).goal_id_count,
            final(self).event_id_count == old(self).event_id_count,
            final(self).time_of_day_config == old(self).time_of_day_config,
    {
        let ghost m = self.goals@;
        let ghost f0 = self.focused_goals@;
        let focused = &self.focused_goals;
        let pred = |child_id: GoalId, g: &Goal| -> (b: bool)
            ensures
                b == !focused@.contains(child_id.0),
            { !focused.contains(child_id.0) };
        let collected = goal_traversal::visit_tree_with_predicate(&self.goals, goal_id, &pred);
        match collected {
            Some(mut need_focusing) => {
                proof {
                    assert forall|x: u32| #[trigger] need_focusing@.contains(x) implies
                        goal_traversal::descendants(m, goal_id.0).contains(x) && !f0.contains(
                        x,
                    ) by {}
                    assert forall|x: u32|
                        goal_traversal::descendants(m, goal_id.0).contains(x) && !f0.contains(x)
                            implies need_focusing@.contains(x) by {
                        if !need_focusing@.contains(x) {
                            assert(call_ensures(pred, (GoalId(x), &m[x]), false));
                        }
                    }
                    assert(need_focusing@ =~= goal_traversal::descendants(
                        m,
                        goal_id.0,
                    ).difference(f0));
                }
                let ghost targets = need_focusing@;
                self.focused_goals.insert(goal_id.0);
                let n = need_focusing.len();
                let mut i: usize = 0;
                while i < n
                    invariant
                        old(self).wf(),
                        need_focusing.wf(),
                        n == need_focusing.item_seq().len(),
                        targets == need_focusing@,
                        i <= n,
                        self.goals == old(self).goals,
                        self.events == old(self).events,
                        self.goal_id_count == old(self).goal_id_count,
                        self.event_id_count == old(self).event_id_count,
                        self.time_of_day_config == old(self).time_of_day_config,
                        self.focused_goals.wf(),
                        self.focused_goals@ == f0.insert(goal_id.0).union(
                            need_focusing.item_seq().take(i as int).to_set(),
                        ),
                        f0 == old(self).focused_goals@,
                    decreases n - i,
                {
                    let x = need_focusing.item_at(i);
                    self.focused_goals.insert(x);
                    proof {
                        goal_traversal::lemma_to_set_push(
                            need_focusing.item_seq().take(i as int),
                            need_focusing.item_seq()[i as int],
                        );
                        assert(need_focusing.item_seq().take(i as int + 1)
                            == need_focusing.item_seq().take(i as int).push(
                            need_focusing.item_seq()[i as int],
                        ));
                        assert(self.focused_goals@ =~= f0.insert(goal_id.0).union(
                            need_focusing.item_seq().take(i as int + 1).to_set(),
                        ));
                    }
                    i = i + 1;
                }
                proof {
                    assert(need_focusing.item_seq().take(n as int) =~= need_focusing.item_seq());
                    assert(self.focused_goals@ =~= f0.insert(goal_id.0).union(targets));
                }
                need_focusing.insert(goal_id.0);
                proof {
                    assert(need_focusing@ =~= targets.insert(goal_id.0));
                    assert(need_focusing@ =~= goal_traversal::descendants(
                        m,
                        goal_id.0,
                    ).difference(f0).insert(goal_id.0));
                    assert(self.focused_goals@ =~= f0.union(
                        goal_traversal::descendants(m, goal_id.0),
                    ).insert(goal_id.0));
                }
                Some(need_focusing)
            },
            None => None,
        }
    }

    /// Unfocus a focused goal and every focused descendant; the returned set
    /// holds the goal itself and every descendant whose state changed.
    /// Nothing if the goal is not currently focused or unknown.
    pub fn unfocus_goal(&mut self, goal_id: GoalId) -> (r: Option<IdSet>)
        requires
            old(self).wf(),
        ensures
            final(self).wf(),
            match r {
                Some(s) => {
                    &&& old(self).goals@.contains_key(goal_id.0)
                    &&& old(self).focused_goals@.contains(goal_id.0)
                    &&& s.wf()
                    &&& s@ == goal_traversal::descendants(old(self).goals@, goal_id.0).intersect(
                        old(self).focused_goals@,
                    ).insert(goal_id.0)
                    &&& final(self).focused_goals@ == old(self).focused_goals@.difference(
                        goal_traversal::descendants(old(self).goals@, goal_id.0).insert(goal_id.0),
                    )
                },
                None => (!old(self).goals@.contains_key(goal_id.0) || !old(
                    self,
                ).focused_goals@.contains(goal_id.0)) && final(self).focused_goals == old(
                    self,
                ).focused_goals,
            },
            final(self).goals == old(self).goals,
            final(self).events == old(self).events,
            final(self).goal_id_count == old(self).goal_id_count,
            final(self).event_id_count == old(self).event_id_count,
            final(self).time_of_day_config == old(self).time_of_day_config,
    {
        let ghost m = self.goals@;
        let ghost f0 = self.focused_goals@;
        if !self.focused_goals.contains(goal_id.0) {
            return None;
        }
        let focused = &self.focused_goals;
        let pred = |child_id: GoalId, g: &Goal| -> (b: bool)
            ensures
                b == focused@.contains(child_id.0),
            { focused.contains(child_id.0) };
        let collected = goal_traversal::visit_tree_with_predicate(&self.goals, goal_id, &pred);
        match collected {
            Some(mut need_unfocusing) => {
                proof {
                    assert forall|x: u32| #[trigger] need_unfocusing@.contains(x) implies
                        goal_traversal::descendants(m, goal_id.0).contains(x) && f0.contains(
                        x,
                    ) by {}
                    assert forall|x: u32|
                        goal_traversal::descendants(m, goal_id.0).contains(x) && f0.contains(x)
                            implies need_unfocusing@.contains(x) by {
                        if !need_unfocusing@.contains(x) {
                            assert(call_ensures(pred, (GoalId(x), &m[x]), false));
                        }
                    }
                    assert(need_unfocusing@ =~= goal_traversal::descendants(
                        m,
                        goal_id.0,
                    ).intersect(f0));
                }
                let ghost targets = need_unfocusing@;
                self.focused_goals.remove(goal_id.0);
                let n = need_unfocusing.len();
                let mut i: usize = 0;
                while i < n
                    invariant
                        old(self).wf(),
                        need_unfocusing.wf(),
                        n == need_unfocusing.item_seq().len(),
                        targets == need_unfocusing@,
                        i <= n,
                        self.goals == old(self).goals,
                        self.events == old(self).events,
                        self.goal_id_count == old(self).goal_id_count,
                        self.event_id_count == old(self).event_id_count,
                        self.time_of_day_config == old(self).time_of_day_config,
                        self.focused_goals.wf(),
                        self.focused_goals@ == f0.remove(goal_id.0).difference(
                            need_unfocusing.item_seq().take(i as int).to_set(),
                        ),
                        f0 == old(self).focused_goals@,
                    decreases n - i,
                {
                    let x = need_unfocusing.item_at(i);
                    self.focused_goals.remove(x);
                    proof {
                        goal_traversal::lemma_to_set_push(
                            need_unfocusing.item_seq().take(i as int),
                            need_unfocusing.item_seq()[i as int],
                        );
                        assert(need_unfocusing.item_seq().take(i as int + 1)
                            == need_unfocusing.item_seq().take(i as int).push(
                            need_unfocusing.item_seq()[i as int],
                        ));
                        assert(self.focused_goals@ =~= f0.remove(goal_id.0).difference(
                            need_unfocusing.item_seq().take(i as int + 1).to_set(),
                        ));
                    }
                    i = i + 1;
                }
                proof {
                    assert(need_unfocusing.item_seq().take(n as int) =~= need_unfocusing.item_seq());
                    assert(self.focused_goals@ =~= f0.remove(goal_id.0).difference(targets));
                }
                need_unfocusing.insert(goal_id.0);
                proof {
                    assert(need_unfocusing@ =~= targets.insert(goal_id.0));
                    assert(need_unfocusing@ =~= goal_traversal::descendants(
                        m,
                        goal_id.0,
                    ).intersect(f0).insert(goal_id.0));
                    assert(self.focused_goals@ =~= f0.difference(
                        goal_traversal::descendants(m, goal_id.0).insert(goal_id.0),
                    ));
                }
                Some(need_unfocusing)
            },
            None => None,
        }
    }
}

/// Appending a fresh childless goal under an existing parent keeps the
/// forest well formed.
proof fn lemma_forest_wf_refine(m: Map<u32, Goal>, parent: u32, parent2: Goal, cid: u32, child: Goal)
    requires
        forest_wf(m),
        m.dom().contains(parent),
        !m.dom().contains(cid),
        cid > parent,
        forall|k: u32| #[trigger] m.dom().contains(k) ==> k != cid,
        parent2.child_ids() == m[parent].child_ids().push(cid),
        child.children@.len() == 0,
    ensures
        forest_wf(m.insert(parent, parent2).insert(cid, child)),
{
    let m2 = m.insert(parent, parent2).insert(cid, child);
    assert(child.child_ids().len() == 0);
    assert forall|a: u32, i: int|
        m2.dom().contains(a) && 0 <= i < m2[a].child_ids().len() implies m2.dom().contains(
        #[trigger] m2[a].child_ids()[i],
    ) && m2[a].child_ids()[i] > a by {
        if a == parent {
            if i < m[parent].child_ids().len() {
                assert(m2[a].child_ids()[i] == m[parent].child_ids()[i]);
                assert(m.dom().contains(m[parent].child_ids()[i]));
            } else {
                assert(m2[a].child_ids()[i] == cid);
            }
        } else if a != cid {
            assert(m2[a] == m[a]);
            assert(m.dom().contains(m[a].child_ids()[i]));
        }
    }
    assert forall|a: u32| #[trigger] m2.dom().contains(a) implies
        m2[a].child_ids().no_duplicates() by {
        if a == parent {
            assert forall|i: int, j: int|
                0 <= i < m2[a].child_ids().len() && 0 <= j < m2[a].child_ids().len() && i != j
                implies m2[a].child_ids()[i] != m2[a].child_ids()[j] by {
                let olds = m[parent].child_ids();
                if i < olds.len() && j < olds.len() {
                    assert(olds.no_duplicates());
                } else if i < olds.len() {
                    assert(m.dom().contains(olds[i]));
                } else if j < olds.len() {
                    assert(m.dom().contains(olds[j]));
                }
            }
        } else if a != cid {
            assert(m2[a] == m[a]);
        }
    }
    assert forall|k1: u32, k2: u32, c: u32|
        m2.dom().contains(k1) && m2.dom().contains(k2) && #[trigger] m2[k1].child_ids().contains(c)
            && #[trigger] m2[k2].child_ids().contains(c) implies k1 == k2 by {
        let olds = m[parent].child_ids();
        if c == cid {
            // Only the parent's new last slot holds the fresh id.
            assert forall|k: u32|
                m2.dom().contains(k) && #[trigger] m2[k].child_ids().contains(c) implies k
                == parent by {
                if k != parent && k != cid {
                    assert(m2[k] == m[k]);
                    let i = choose|i: int|
                        0 <= i < m[k].child_ids().len() && m[k].child_ids()[i] == c;
                    assert(m.dom().contains(m[k].child_ids()[i]));
                } else if k == parent {
                }
            }
        } else {
            assert forall|k: u32|
                m2.dom().contains(k) && #[trigger] m2[k].child_ids().contains(c) implies
                m.dom().contains(k) && m[k].child_ids().contains(c) by {
                if k == parent {
                    let i = choose|i: int|
                        0 <= i < m2[k].child_ids().len() && m2[k].child_ids()[i] == c;
                    assert(m2[k].child_ids()[i] == olds[i]);
                } else if k == cid {
                } else {
                    assert(m2[k] == m[k]);
                }
            }
        }
    }
}


impl Profile {
    /// Drop from every event the relationships whose target lies in
    /// `goal_ids`; everything else about each event is kept.
    fn remove_goals_from_event_relationships(&mut self, goal_ids: &IdSet)
        requires
            old(self).events.wf(),
        ensures
            final(self).events.wf(),
            final(self).events@.dom() == old(self).events@.dom(),
            forall|k: u32|
                #[trigger] old(self).events@.contains_key(k) ==> crate::event::event_shell_eq(
                    old(self).events@[k],
                    final(self).events@[k],
                ) && (forall|rr: GoalRelationship|
                    #[trigger] final(self).events@[k].spec_goal_relationships().contains(rr)
                        ==> old(self).events@[k].spec_goal_relationships().contains(rr)
                        && !goal_ids@.contains(crate::event::rel_target(rr))) && (forall|
                    rr: GoalRelationship,
                |
                    #[trigger] old(self).events@[k].spec_goal_relationships().contains(rr)
                        && !goal_ids@.contains(crate::event::rel_target(rr)) ==> final(self).events@[k].spec_goal_relationships().contains(rr)),
            final(self).goals == old(self).goals,
            final(self).focused_goals == old(self).focused_goals,
            final(self).goal_id_count == old(self).goal_id_count,
            final(self).event_id_count == old(self).event_id_count,
            final(self).time_of_day_config == old(self).time_of_day_config,
    {
        proof {
            self.events.lemma_view();
        }
        let n = self.events.len();
        let mut i: usize = 0;
        while i < n
            invariant
                old(self).events.wf(),
                self.events.wf(),
                n == self.events.entry_seq().len(),
                n == old(self).events.entry_seq().len(),
                i <= n,
                self.events.key_seq() == old(self).events.key_seq(),
                forall|j: int|
                    i <= j < n ==> #[trigger] self.events.entry_seq()[j] == old(
                        self,
                    ).events.entry_seq()[j],
                forall|j: int|
                    0 <= j < i ==> {
                        let e0 = old(self).events.entry_seq()[j].1;
                        let e1 = (#[trigger] self.events.entry_seq()[j]).1;
                        &&& crate::event::event_shell_eq(e0, e1)
                        &&& forall|rr: GoalRelationship|
                            #[trigger] e1.spec_goal_relationships().contains(rr)
                                ==> e0.spec_goal_relationships().contains(rr)
                                && !goal_ids@.contains(crate::event::rel_target(rr))
                        &&& forall|rr: GoalRelationship|
                            #[trigger] e0.spec_goal_relationships().contains(rr)
                                && !goal_ids@.contains(crate::event::rel_target(rr))
                                ==> e1.spec_goal_relationships().contains(rr)
                    },
                self.goals == old(self).goals,
                self.focused_goals == old(self).focused_goals,
                self.goal_id_count == old(self).goal_id_count,
                self.event_id_count == old(self).event_id_count,
                self.time_of_day_config == old(self).time_of_day_config,
            decreases n - i,
        {
            let ghost pre_entries = self.events.entry_seq();
            let ev = self.events.value_at_mut(i);
            let rels = ev.goal_relationships_mut();
            let ghost rels0 = (*rels)@;
            let mut kept: Vec<GoalRelationship> = Vec::new();
            let rn = rels.len();
            let mut t: usize = 0;
            while t < rn
                invariant
                    rn == rels0.len(),
                    rels0 == (*rels)@,
                    t <= rn,
                    forall|rr: GoalRelationship|
                        #[trigger] kept@.contains(rr) ==> rels0.contains(rr)
                            && !goal_ids@.contains(crate::event::rel_target(rr)),
                    forall|u: int|
                        0 <= u < t && !goal_ids@.contains(
                            crate::event::rel_target(#[trigger] rels0[u]),
                        ) ==> kept@.contains(rels0[u]),
                decreases rn - t,
            {
                let rr = rels[t];
                let target = crate::event::relationship_target(&rr);
                if !goal_ids.contains(target.0) {
                    let ghost pre_kept = kept@;
                    kept.push(rr);
                    proof {
                        assert(kept@ == pre_kept.push(rr));
                        assert(kept@.contains(rels0[t as int])) by {
                            assert(kept@[kept@.len() - 1] == rels0[t as int]);
                        }
                        assert forall|rr2: GoalRelationship| #[trigger] kept@.contains(rr2)
                            implies rels0.contains(rr2) && !goal_ids@.contains(
                            crate::event::rel_target(rr2),
                        ) by {
                            let u = choose|u: int| 0 <= u < kept@.len() && kept@[u] == rr2;
                            if u < kept@.len() - 1 {
                                assert(pre_kept.contains(rr2)) by {
                                    assert(pre_kept[u] == rr2);
                                }
                            } else {
                                assert(rels0[t as int] == rr2);
                                assert(rels0.contains(rr2)) by {
                                    assert(rels0[t as int] == rr2);
                                }
                            }
                        }
                        assert forall|u: int|
                            0 <= u < t + 1 && !goal_ids@.contains(
                                crate::event::rel_target(#[trigger] rels0[u]),
                            ) implies kept@.contains(rels0[u]) by {
                            if u < t {
                                assert(pre_kept.contains(rels0[u]));
                                let w = choose|w: int|
                                    0 <= w < pre_kept.len() && pre_kept[w] == rels0[u];
                                assert(kept@[w] == rels0[u]);
                            }
                        }
                    }
                }
                t = t + 1;
            }
            *rels = kept;
            proof {
                assert(self.events.entry_seq() == pre_entries.update(
                    i as int,
                    (pre_entries[i as int].0, self.events.entry_seq()[i as int].1),
                ));
                assert(self.events.key_seq() =~= old(self).events.key_seq());
            }
            i = i + 1;
        }
        proof {
            self.events.lemma_view();
            old(self).events.lemma_view();
            assert(self.events@.dom() =~= old(self).events@.dom()) by {
                assert forall|k: u32| #[trigger] self.events@.contains_key(k) implies old(
                    self,
                ).events@.contains_key(k) by {
                    assert(self.events.key_seq().contains(k));
                }
                assert forall|k: u32| #[trigger] old(self).events@.contains_key(k) implies
                    self.events@.contains_key(k) by {
                    assert(old(self).events.key_seq().contains(k));
                }
            }
            assert forall|k: u32| #[trigger] old(self).events@.contains_key(k) implies
                crate::event::event_shell_eq(old(self).events@[k], self.events@[k]) && (forall|
                rr: GoalRelationship,
            |
                #[trigger] self.events@[k].spec_goal_relationships().contains(rr) ==> old(
                    self,
                ).events@[k].spec_goal_relationships().contains(rr) && !goal_ids@.contains(
                    crate::event::rel_target(rr),
                )) && (forall|rr: GoalRelationship|
                #[trigger] old(self).events@[k].spec_goal_relationships().contains(rr)
                    && !goal_ids@.contains(crate::event::rel_target(rr))
                    ==> self.events@[k].spec_goal_relationships().contains(rr)) by {
                let j = choose|j: int|
                    0 <= j < old(self).events.key_seq().len() && old(self).events.key_seq()[j]
                        == k;
                assert(old(self).events.entry_seq()[j].0 == k);
                assert(self.events.entry_seq()[j].0 == k);
                assert(old(self).events@[k] == old(self).events.entry_seq()[j].1);
                assert(self.events@.contains_key(self.events.entry_seq()[j].0));
                assert(self.events@[k] == self.events.entry_seq()[j].1);
            }
        }
    }

    /// Delete a goal and its whole subtree: every id in the subtree leaves
    /// the goals map and the focus set, every event relationship that
    /// references one of them is stripped, and the goal leaves its former
    /// parent's children list.  Returns the removed subtree's snapshot, or
    /// nothing if the id is unknown.
    pub fn remove_goal(&mut self, goal_id: GoalId) -> (r: Option<PopulatedGoal>)
        requires
            old(self).wf(),
        ensures
            final(self).wf(),
            match r {
                Some(t) => {
                    let m0 = old(self).goals@;
                    let sub = goal_traversal::descendants(m0, goal_id.0).insert(goal_id.0);
                    &&& m0.contains_key(goal_id.0)
                    &&& goal_traversal::pg_matches(m0, t)
                    &&& goal_traversal::pg_depths_ok(t)
                    &&& goal_traversal::pg_widths_ok(t)
                    &&& t.id == goal_id
                    &&& goal_traversal::descendants(m0, goal_id.0).finite()
                    &&& goal_traversal::pg_count(t) == goal_traversal::descendants(
                        m0,
                        goal_id.0,
                    ).len() + 1
                    &&& final(self).goals@.dom() == m0.dom().difference(sub)
                    &&& final(self).focused_goals@ == old(self).focused_goals@.difference(sub)
                    &&& final(self).events@.dom() == old(self).events@.dom()
                    &&& forall|k: u32|
                        #[trigger] old(self).events@.contains_key(k)
                            ==> crate::event::event_shell_eq(
                            old(self).events@[k],
                            final(self).events@[k],
                        ) && (forall|rr: GoalRelationship|
                            #[trigger] final(self).events@[k].spec_goal_relationships().contains(
                                rr,
                            ) ==> old(self).events@[k].spec_goal_relationships().contains(rr)
                                && !sub.contains(crate::event::rel_target(rr))) && (forall|
                            rr: GoalRelationship,
                        |
                            #[trigger] old(self).events@[k].spec_goal_relationships().contains(rr)
                                && !sub.contains(crate::event::rel_target(rr)) ==> final(self).events@[k].spec_goal_relationships().contains(rr))
                    &&& match t.parent_goal_id {
                        Some(par) => {
                            &&& m0.contains_key(par.0)
                            &&& m0[par.0].child_ids().contains(goal_id.0)
                            &&& final(self).goals@.contains_key(par.0)
                            &&& !final(self).goals@[par.0].children@.contains(goal_id)
                            &&& exists|ci: int|
                                0 <= ci < m0[par.0].children@.len() && m0[par.0].children@[ci]
                                    == goal_id && (forall|j: int|
                                    0 <= j < ci ==> m0[par.0].children@[j] != goal_id)
                                    && final(self).goals@[par.0].children@ == m0[
                                    par.0].children@.remove(ci)
                            &&& final(self).goals@[par.0].name == m0[par.0].name
                            &&& final(self).goals@[par.0].effort_to_date == m0[par.0].effort_to_date
                            &&& final(self).goals@[par.0].effort_to_complete == m0[par.0].effort_to_complete
                            &&& forall|k: u32|
                                #[trigger] final(self).goals@.contains_key(k) && k != par.0
                                    ==> final(self).goals@[k] == m0[k]
                        },
                        None => (forall|k: u32|
                            #[trigger] final(self).goals@.contains_key(k) ==> final(self).goals@[k]
                                == m0[k]) && (forall|k: u32|
                            #[trigger] m0.contains_key(k) ==> !m0[k].child_ids().contains(
                                goal_id.0,
                            )),
                    }
                },
                None => {
                    &&& !old(self).goals@.contains_key(goal_id.0)
                    &&& final(self).goals == old(self).goals
                    &&& final(self).focused_goals == old(self).focused_goals
                    &&& final(self).events == old(self).events
                },
            },
            final(self).goal_id_count == old(self).goal_id_count,
            final(self).event_id_count == old(self).event_id_count,
            final(self).time_of_day_config == old(self).time_of_day_config,
    {
        let ghost m0 = self.goals@;
        let ghost f0 = self.focused_goals@;
        match goal_traversal::populate_goal_tree(&self.goals, goal_id) {
            Some((populated_goal, child_ids_needing_removal)) => {
                let mut all_ids = child_ids_needing_removal;
                all_ids.insert(goal_id.0);
                let ghost sub = all_ids@;
                proof {
                    assert(sub =~= goal_traversal::descendants(m0, goal_id.0).insert(goal_id.0));
                }
                let n = all_ids.len();
                let mut i: usize = 0;
                while i < n
                    invariant
                        old(self).wf(),
                        all_ids.wf(),
                        n == all_ids.item_seq().len(),
                        sub == all_ids@,
                        i <= n,
                        self.goals.wf(),
                        self.goals@ == m0.remove_keys(all_ids.item_seq().take(i as int).to_set()),
                        self.focused_goals.wf(),
                        self.focused_goals@ == f0.difference(
                            all_ids.item_seq().take(i as int).to_set(),
                        ),
                        m0 == old(self).goals@,
                        f0 == old(self).focused_goals@,
                        self.events == old(self).events,
                        self.goal_id_count == old(self).goal_id_count,
                        self.event_id_count == old(self).event_id_count,
                        self.time_of_day_config == old(self).time_of_day_config,
                    decreases n - i,
                {
                    let x = all_ids.item_at(i);
                    self.goals.remove(x);
                    self.focused_goals.remove(x);
                    proof {
                        goal_traversal::lemma_to_set_push(
                            all_ids.item_seq().take(i as int),
                            all_ids.item_seq()[i as int],
                        );
                        assert(all_ids.item_seq().take(i as int + 1) == all_ids.item_seq().take(
                            i as int,
                        ).push(all_ids.item_seq()[i as int]));
                        assert(self.goals@ =~= m0.remove_keys(
                            all_ids.item_seq().take(i as int + 1).to_set(),
                        ));
                        assert(self.focused_goals@ =~= f0.difference(
                            all_ids.item_seq().take(i as int + 1).to_set(),
                        ));
                    }
                    i = i + 1;
                }
                proof {
                    assert(all_ids.item_seq().take(n as int) =~= all_ids.item_seq());
                    assert(self.goals@ == m0.remove_keys(sub));
                    assert(self.goals@.dom() =~= m0.dom().difference(sub));
                    assert(self.focused_goals@ =~= f0.difference(sub));
                }
                self.remove_goals_from_event_relationships(&all_ids);
                let ghost m_after = self.goals@;
                match populated_goal.parent_goal_id {
                    Some(parent_goal_id) => {
                        proof {
                            assert(m0[parent_goal_id.0].child_ids().contains(goal_id.0));
                            assert(!sub.contains(parent_goal_id.0)) by {
                                let ci = choose|ci: int|
                                    0 <= ci < m0[parent_goal_id.0].child_ids().len() && m0[parent_goal_id.0].child_ids()[ci] == goal_id.0;
                                assert(goal_id.0 > parent_goal_id.0);
                                if goal_traversal::descendants(m0, goal_id.0).contains(
                                    parent_goal_id.0,
                                ) {
                                    goal_traversal::lemma_reaches_in_dom(
                                        m0,
                                        goal_id.0,
                                        parent_goal_id.0,
                                    );
                                }
                            }
                            assert(m_after.contains_key(parent_goal_id.0));
                            assert(m_after[parent_goal_id.0] == m0[parent_goal_id.0]);
                            goal_traversal::lemma_child_ids_contains(
                                m0[parent_goal_id.0],
                                goal_id.0,
                            );
                        }
                        match self.goals.get_mut(parent_goal_id.0) {
                            Some(parent_goal) => {
                                parent_goal.remove_child(goal_id);
                            },
                            None => {},
                        }
                        proof {
                            let par = parent_goal_id.0;
                            let ch0 = m0[par].children@;
                            let kid0 = m0[par].child_ids();
                            assert(ch0.contains(GoalId(goal_id.0)));
                            assert(GoalId(goal_id.0) == goal_id);
                            let chn = self.goals@[par].children@;
                            let i = choose|i: int|
                                0 <= i < ch0.len() && ch0[i] == goal_id && (forall|j: int|
                                    0 <= j < i ==> ch0[j] != goal_id) && chn == ch0.remove(i);
                            assert(kid0.no_duplicates());
                            assert forall|j: int| 0 <= j < chn.len() implies chn[j] != goal_id by {
                                let j0: int = if j < i {
                                    j
                                } else {
                                    j + 1
                                };
                                assert(chn[j] == ch0[j0]);
                                if ch0[j0] == goal_id {
                                    assert(kid0[j0] == goal_id.0);
                                    assert(kid0[i] == goal_id.0);
                                    assert(false);
                                }
                            }
                            assert(!chn.contains(goal_id));
                            assert forall|c: u32|
                                #[trigger] self.goals@[par].child_ids().contains(c) implies m0[par].child_ids().contains(c) by {
                                let j = choose|j: int|
                                    0 <= j < self.goals@[par].child_ids().len() && self.goals@[par].child_ids()[j] == c;
                                let j0: int = if j < i {
                                    j
                                } else {
                                    j + 1
                                };
                                assert(chn[j] == ch0[j0]);
                                assert(kid0[j0] == c);
                            }
                            assert(self.goals@[par].child_ids().no_duplicates()) by {
                                assert forall|a: int, b: int|
                                    0 <= a < self.goals@[par].child_ids().len() && 0 <= b
                                        < self.goals@[par].child_ids().len() && a != b implies
                                    self.goals@[par].child_ids()[a] != self.goals@[par].child_ids()[b] by {
                                    let a0: int = if a < i {
                                        a
                                    } else {
                                        a + 1
                                    };
                                    let b0: int = if b < i {
                                        b
                                    } else {
                                        b + 1
                                    };
                                    assert(chn[a] == ch0[a0]);
                                    assert(chn[b] == ch0[b0]);
                                    assert(self.goals@[par].child_ids()[a] == kid0[a0]);
                                    assert(self.goals@[par].child_ids()[b] == kid0[b0]);
                                }
                            }
                            assert(self.goals@.dom() =~= m0.dom().difference(sub));
                            lemma_forest_wf_remove_subtree(
                                m0,
                                goal_id.0,
                                sub,
                                self.goals@,
                                Some(par),
                            );
                        }
                    },
                    None => {
                        proof {
                            assert forall|k: u32| #[trigger] self.goals@.contains_key(k) implies
                                self.goals@[k] == m0[k] by {}
                            assert(self.goals@.dom() =~= m0.dom().difference(sub));
                            lemma_forest_wf_remove_subtree(m0, goal_id.0, sub, self.goals@, None);
                        }
                    },
                }
                proof {
                    assert forall|k: u32, rr: GoalRelationship|
                        self.events@.contains_key(k) && #[trigger] self.events@[k].spec_goal_relationships().contains(rr) implies !sub.contains(
                        crate::event::rel_target(rr),
                    ) by {
                        assert(old(self).events@.contains_key(k));
                    }
                    assert forall|k: u32| #[trigger] self.goals@.contains_key(k) implies k < self.goal_id_count by {
                        assert(m0.contains_key(k));
                    }
                }
                Some(populated_goal)
            },
            None => None,
        }
    }

    /// One fresh snapshot per root goal, in id order.
    pub fn populate_goals(&self) -> (r: Vec<PopulatedGoal>)
        requires
            self.wf(),
        ensures
            forall|i: int|
                0 <= i < r@.len() ==> {
                    let t = #[trigger] r@[i];
                    &&& goal_traversal::pg_matches(self.goals@, t)
                    &&& t.parent_goal_id is None
                    &&& self.goals@.contains_key(t.id.0)
                    &&& forall|k: u32|
                        #[trigger] self.goals@.contains_key(k) ==> !self.goals@[k].child_ids().contains(t.id.0)
                },
            forall|x: u32|
                #[trigger] self.goals@.contains_key(x) && (forall|k: u32|
                    #[trigger] self.goals@.contains_key(k) ==> !self.goals@[k].child_ids().contains(x)) ==> exists|i: int|
                    0 <= i < r@.len() && (#[trigger] r@[i]).id.0 == x,
            forall|i: int, j: int|
                0 <= i < j < r@.len() ==> (#[trigger] r@[i]).id.0 < (#[trigger] r@[j]).id.0,
    {
        let root_goal_ids = goal_traversal::get_root_goals(&self.goals);
        let n = root_goal_ids.len();
        let mut out: Vec<PopulatedGoal> = Vec::new();
        let mut i: usize = 0;
        while i < n
            invariant
                self.wf(),
                n == root_goal_ids@.len(),
                i <= n,
                out@.len() == i,
                forall|t: int|
                    0 <= t < root_goal_ids@.len() ==> self.goals@.contains_key(
                        (#[trigger] root_goal_ids@[t]).0,
                    ) && (forall|k: u32|
                        #[trigger] self.goals@.contains_key(k) ==> !self.goals@[k].child_ids().contains(root_goal_ids@[t].0)),
                forall|t: int, u: int|
                    0 <= t < u < root_goal_ids@.len() ==> (#[trigger] root_goal_ids@[t]).0 < (
                    #[trigger] root_goal_ids@[u]).0,
                forall|t: int|
                    0 <= t < i ==> {
                        let tr = #[trigger] out@[t];
                        &&& goal_traversal::pg_matches(self.goals@, tr)
                        &&& tr.parent_goal_id is None
                        &&& tr.id == root_goal_ids@[t]
                    },
            decreases n - i,
        {
            let root_goal_id = root_goal_ids[i];
            match goal_traversal::populate_goal_tree(&self.goals, root_goal_id) {
                Some((tree, _)) => {
                    proof {
                        match tree.parent_goal_id {
                            Some(par) => {
                                assert(self.goals@[par.0].child_ids().contains(root_goal_id.0));
                                assert(false);
                            },
                            None => {},
                        }
                    }
                    out.push(tree);
                },
                None => {
                    proof {
                        assert(self.goals@.contains_key(root_goal_id.0));
                        assert(false);
                    }
                },
            }
            i = i + 1;
        }
        proof {
            assert forall|x: u32|
                #[trigger] self.goals@.contains_key(x) && (forall|k: u32|
                    #[trigger] self.goals@.contains_key(k) ==> !self.goals@[k].child_ids().contains(x)) implies exists|t: int|
                0 <= t < out@.len() && (#[trigger] out@[t]).id.0 == x by {
                assert(root_goal_ids@.map_values(|g: GoalId| g.0).contains(x));
                let ms = root_goal_ids@.map_values(|g: GoalId| g.0);
                let t = choose|t: int| 0 <= t < ms.len() && #[trigger] ms[t] == x;
                assert(root_goal_ids@[t].0 == x);
                assert(out@[t].id.0 == x);
            }
        }
        out
    }
}

/// Removing a whole subtree (and the subtree root's entry in its former
/// parent's children list) keeps the forest well formed.
proof fn lemma_forest_wf_remove_subtree(
    m: Map<u32, Goal>,
    root: u32,
    sub: Set<u32>,
    m2: Map<u32, Goal>,
    parent: Option<u32>,
)
    requires
        forest_wf(m),
        m.dom().contains(root),
        sub == goal_traversal::descendants(m, root).insert(root),
        m2.dom() == m.dom().difference(sub),
        match parent {
            Some(par) => {
                &&& m.dom().contains(par)
                &&& m[par].child_ids().contains(root)
                &&& !sub.contains(par)
                &&& m2.dom().contains(par)
                &&& !m2[par].children@.contains(GoalId(root))
                &&& forall|c: u32|
                    #[trigger] m2[par].child_ids().contains(c) ==> m[par].child_ids().contains(c)
                &&& m2[par].child_ids().no_duplicates()
                &&& forall|k: u32|
                    #[trigger] m2.dom().contains(k) && k != par ==> m2[k] == m[k]
            },
            None => (forall|k: u32| #[trigger] m2.dom().contains(k) ==> m2[k] == m[k]) && (forall|
                k: u32,
            |
                #[trigger] m.dom().contains(k) ==> !m[k].child_ids().contains(root)),
        },
    ensures
        forest_wf(m2),
{
    assert forall|k: u32| #[trigger] m2.dom().contains(k) implies (forall|c: u32|
        #[trigger] m2[k].child_ids().contains(c) ==> m[k].child_ids().contains(c))
        && m2[k].child_ids().no_duplicates() && m.dom().contains(k) by {
        match parent {
            Some(par) => {
                if k != par {
                    assert(m2[k] == m[k]);
                }
            },
            None => {
                assert(m2[k] == m[k]);
            },
        }
    }
    assert forall|k: u32| #[trigger] m2.dom().contains(k) implies !m2[k].child_ids().contains(
        root,
    ) by {
        if m2[k].child_ids().contains(root) {
            assert(m[k].child_ids().contains(root));
            match parent {
                Some(par) => {
                    assert(k == par);
                    goal_traversal::lemma_child_ids_contains(m2[par], root);
                },
                None => {},
            }
        }
    }
    assert forall|a: u32, i: int|
        m2.dom().contains(a) && 0 <= i < m2[a].child_ids().len() implies m2.dom().contains(
        #[trigger] m2[a].child_ids()[i],
    ) && m2[a].child_ids()[i] > a by {
        let c = m2[a].child_ids()[i];
        assert(m2[a].child_ids().contains(c));
        assert(m[a].child_ids().contains(c));
        let i0 = choose|i0: int| 0 <= i0 < m[a].child_ids().len() && m[a].child_ids()[i0] == c;
        assert(m.dom().contains(m[a].child_ids()[i0]) && m[a].child_ids()[i0] > a);
        assert(c != root);
        if goal_traversal::descendants(m, root).contains(c) {
            goal_traversal::lemma_parent_of_descendant(m, root, a, c);
            assert(sub.contains(a));
            assert(!m2.dom().contains(a));
        }
        assert(!sub.contains(c));
    }
    assert forall|k1: u32, k2: u32, c: u32|
        m2.dom().contains(k1) && m2.dom().contains(k2) && #[trigger] m2[k1].child_ids().contains(c)
            && #[trigger] m2[k2].child_ids().contains(c) implies k1 == k2 by {
        assert(m[k1].child_ids().contains(c));
        assert(m[k2].child_ids().contains(c));
    }
}


/// Focusing a goal whose subtree holds no focused id and then unfocusing it
/// undoes the focus completely: the second call reports exactly the set the
/// first one reported (the goal and every descendant, each once), and the
/// focus set returns to its old value.
pub proof fn lemma_focus_then_unfocus_round_trip(
    pre: Profile,
    mid: Profile,
    post: Profile,
    root: GoalId,
    s1: Set<u32>,
    s2: Set<u32>,
)
    requires
        pre.wf(),
        pre.goals@.contains_key(root.0),
        pre.focused_goals@.disjoint(
            goal_traversal::descendants(pre.goals@, root.0).insert(root.0),
        ),
        s1 == goal_traversal::descendants(pre.goals@, root.0).difference(
            pre.focused_goals@,
        ).insert(root.0),
        mid.focused_goals@ == pre.focused_goals@.union(
            goal_traversal::descendants(pre.goals@, root.0),
        ).insert(root.0),
        mid.goals == pre.goals,
        s2 == goal_traversal::descendants(mid.goals@, root.0).intersect(
            mid.focused_goals@,
        ).insert(root.0),
        post.focused_goals@ == mid.focused_goals@.difference(
            goal_traversal::descendants(mid.goals@, root.0).insert(root.0),
        ),
    ensures
        s1 == goal_traversal::descendants(pre.goals@, root.0).insert(root.0),
        s2 == s1,
        post.focused_goals@ == pre.focused_goals@,
{
    let d = goal_traversal::descendants(pre.goals@, root.0);
    assert(s1 =~= d.insert(root.0));
    assert(s2 =~= d.insert(root.0));
    assert(post.focused_goals@ =~= pre.focused_goals@);
}


impl crate::query::GoalQueryEngine for ProfileAndDateTime {
    open spec fn query_inv(&self) -> bool {
        self.0.wf()
    }

    fn unfinished_goals(&self) -> (r: IdSet)
        ensures
            r.wf(),
            r@ == Set::new(
                |x: u32|
                    self.0.goals@.contains_key(x) && !self.0.goals@[x].spec_finished(),
            ),
    {
        proof {
            self.0.goals.lemma_view();
        }
        let n = self.0.goals.len();
        let mut out = IdSet::new();
        let mut i: usize = 0;
        while i < n
            invariant
                self.0.wf(),
                n == self.0.goals.entry_seq().len(),
                i <= n,
                out.wf(),
                forall|x: u32|
                    #[trigger] out@.contains(x) <==> exists|j: int|
                        0 <= j < i && #[trigger] self.0.goals.entry_seq()[j].0 == x
                            && !self.0.goals.entry_seq()[j].1.spec_finished(),
            decreases n - i,
        {
            let g = self.0.goals.value_at(i);
            if g.unfinished() {
                let id = self.0.goals.key_at(i);
                out.insert(id);
            }
            i = i + 1;
        }
        proof {
            self.0.goals.lemma_view();
            let target = Set::new(
                |x: u32|
                    self.0.goals@.contains_key(x) && !self.0.goals@[x].spec_finished(),
            );
            assert forall|x: u32| #[trigger] out@.contains(x) implies target.contains(x) by {
                let j = choose|j: int|
                    0 <= j < n && #[trigger] self.0.goals.entry_seq()[j].0 == x
                        && !self.0.goals.entry_seq()[j].1.spec_finished();
                assert(self.0.goals.key_seq()[j] == x);
            }
            assert forall|x: u32| target.contains(x) implies out@.contains(x) by {
                let j = choose|j: int|
                    0 <= j < self.0.goals.key_seq().len() && self.0.goals.key_seq()[j] == x;
                assert(self.0.goals.entry_seq()[j].0 == x);
            }
            assert(out@ =~= target);
        }
        out
    }

    fn finished_goals(&self) -> (r: IdSet)
        ensures
            r.wf(),
            r@ == Set::new(
                |x: u32| self.0.goals@.contains_key(x) && self.0.goals@[x].spec_finished(),
            ),
    {
        proof {
            self.0.goals.lemma_view();
        }
        let n = self.0.goals.len();
        let mut out = IdSet::new();
        let mut i: usize = 0;
        while i < n
            invariant
                self.0.wf(),
                n == self.0.goals.entry_seq().len(),
                i <= n,
                out.wf(),
                forall|x: u32|
                    #[trigger] out@.contains(x) <==> exists|j: int|
                        0 <= j < i && #[trigger] self.0.goals.entry_seq()[j].0 == x
                            && self.0.goals.entry_seq()[j].1.spec_finished(),
            decreases n - i,
        {
            let g = self.0.goals.value_at(i);
            if g.finished() {
                let id = self.0.goals.key_at(i);
                out.insert(id);
            }
            i = i + 1;
        }
        proof {
            self.0.goals.lemma_view();
            let target = Set::new(
                |x: u32| self.0.goals@.contains_key(x) && self.0.goals@[x].spec_finished(),
            );
            assert forall|x: u32| #[trigger] out@.contains(x) implies target.contains(x) by {
                let j = choose|j: int|
                    0 <= j < n && #[trigger] self.0.goals.entry_seq()[j].0 == x
                        && self.0.goals.entry_seq()[j].1.spec_finished();
                assert(self.0.goals.key_seq()[j] == x);
            }
            assert forall|x: u32| target.contains(x) implies out@.contains(x) by {
                let j = choose|j: int|
                    0 <= j < self.0.goals.key_seq().len() && self.0.goals.key_seq()[j] == x;
                assert(self.0.goals.entry_seq()[j].0 == x);
            }
            assert(out@ =~= target);
        }
        out
    }

    fn goal_ids(&self) -> (r: IdSet)
        ensures
            r.wf(),
            r@ == self.0.goals@.dom(),
    {
        self.0.goal_ids()
    }
}

} // verus!
