//! The request layer: a closed set of request kinds, each mapping 1:1 to a
//! goal store call.  Every handled request yields the domain events that
//! describe what happened; an unknown target is a silent no-op that yields
//! no event.

use vstd::prelude::*;
use crate::arena::IdSet;
use crate::goal::{Goal, GoalEvent, GoalId, GoalRelationship};
use crate::profile::Profile;
use crate::profile::goal_traversal::{descendants, pg_matches};

verus! {

/// Everything a caller can ask the store to do.
#[derive(Debug)]
pub enum GoalRequest {
    AddEffort { goal_id: GoalId, effort: u32 },
    RemoveEffort { goal_id: GoalId, effort: u32 },
    Focus(GoalId),
    Unfocus(GoalId),
    FocusSingle(GoalId),
    UnfocusSingle(GoalId),
    Rescope { goal_id: GoalId, new_effort_to_complete: u32 },
    Add { name: String, effort_to_complete: u32 },
    Refine {
        parent_goal_id: GoalId,
        parent_effort_removed: u32,
        child_name: String,
        child_effort_to_complete: u32,
    },
    Delete(GoalId),
    Rename { goal_id: GoalId, new_name: String },
}

/// When a request touches an existing target (or may always proceed), so
/// that exactly one event is emitted.
pub open spec fn request_applies(pre: Profile, request: GoalRequest) -> bool {
    match request {
        GoalRequest::AddEffort { goal_id, .. } => pre.goals@.contains_key(goal_id.0),
        GoalRequest::RemoveEffort { goal_id, .. } => pre.goals@.contains_key(goal_id.0),
        GoalRequest::Focus(goal_id) => pre.goals@.contains_key(goal_id.0),
        GoalRequest::Unfocus(goal_id) => pre.goals@.contains_key(goal_id.0)
            && pre.focused_goals@.contains(goal_id.0),
        GoalRequest::FocusSingle(goal_id) => pre.goals@.contains_key(goal_id.0),
        GoalRequest::UnfocusSingle(goal_id) => pre.focused_goals@.contains(goal_id.0),
        GoalRequest::Rescope { goal_id, .. } => pre.goals@.contains_key(goal_id.0),
        GoalRequest::Add { .. } => true,
        GoalRequest::Refine { parent_goal_id, .. } => pre.goals@.contains_key(parent_goal_id.0),
        GoalRequest::Delete(goal_id) => pre.goals@.contains_key(goal_id.0),
        GoalRequest::Rename { goal_id, .. } => pre.goals@.contains_key(goal_id.0),
    }
}

/// The parts of the store a request may never touch: the event arena, the
/// id counters and the time-of-day configuration, except as stated.
pub open spec fn untouched_but_goals_and_focus(pre: Profile, post: Profile) -> bool {
    &&& post.events == pre.events
    &&& post.event_id_count == pre.event_id_count
    &&& post.time_of_day_config == pre.time_of_day_config
}

/// What one handled request did to the store, and which event describes it.
/// Every kind pins its one mutation and leaves everything else unchanged.
pub open spec fn request_effect(
    pre: Profile,
    post: Profile,
    request: GoalRequest,
    event: GoalEvent,
) -> bool {
    match request {
        GoalRequest::AddEffort { goal_id, effort } => {
            &&& event == (GoalEvent::AddEffort { goal_id, effort })
            &&& post.goals@[goal_id.0].effort_to_date == pre.goals@[goal_id.0].effort_to_date
                + effort
            &&& post.goals@[goal_id.0].effort_to_complete == pre.goals@[goal_id.0].effort_to_complete
            &&& post.goals@[goal_id.0].name == pre.goals@[goal_id.0].name
            &&& post.goals@[goal_id.0].children == pre.goals@[goal_id.0].children
            &&& post.goals@.dom() == pre.goals@.dom()
            &&& forall|k: u32|
                #[trigger] pre.goals@.contains_key(k) && k != goal_id.0 ==> post.goals@[k]
                    == pre.goals@[k]
            &&& post.focused_goals == pre.focused_goals
            &&& post.goal_id_count == pre.goal_id_count
            &&& untouched_but_goals_and_focus(pre, post)
        },
        GoalRequest::RemoveEffort { goal_id, effort } => {
            &&& event == (GoalEvent::RemoveEffort { goal_id, effort })
            &&& post.goals@[goal_id.0].effort_to_date == if pre.goals@[goal_id.0].effort_to_date
                >= effort {
                pre.goals@[goal_id.0].effort_to_date - effort
            } else {
                0
            }
            &&& post.goals@[goal_id.0].effort_to_complete == pre.goals@[goal_id.0].effort_to_complete
            &&& post.goals@[goal_id.0].name == pre.goals@[goal_id.0].name
            &&& post.goals@[goal_id.0].children == pre.goals@[goal_id.0].children
            &&& post.goals@.dom() == pre.goals@.dom()
            &&& forall|k: u32|
                #[trigger] pre.goals@.contains_key(k) && k != goal_id.0 ==> post.goals@[k]
                    == pre.goals@[k]
            &&& post.focused_goals == pre.focused_goals
            &&& post.goal_id_count == pre.goal_id_count
            &&& untouched_but_goals_and_focus(pre, post)
        },
        GoalRequest::Focus(goal_id) => {
            &&& event matches GoalEvent::Focus { focus_root_id, focused_children } && focus_root_id
                == goal_id && focused_children@ == descendants(pre.goals@, goal_id.0).difference(
                pre.focused_goals@,
            )
            &&& post.focused_goals@ == pre.focused_goals@.union(
                descendants(pre.goals@, goal_id.0),
            ).insert(goal_id.0)
            &&& post.goals == pre.goals
            &&& post.goal_id_count == pre.goal_id_count
            &&& untouched_but_goals_and_focus(pre, post)
        },
        GoalRequest::Unfocus(goal_id) => {
            &&& event matches GoalEvent::Unfocus { unfocus_root_id, unfocused_children }
                && unfocus_root_id == goal_id && unfocused_children@ == descendants(
                pre.goals@,
                goal_id.0,
            ).intersect(pre.focused_goals@)
            &&& post.focused_goals@ == pre.focused_goals@.difference(
                descendants(pre.goals@, goal_id.0).insert(goal_id.0),
            )
            &&& post.goals == pre.goals
            &&& post.goal_id_count == pre.goal_id_count
            &&& untouched_but_goals_and_focus(pre, post)
        },
        GoalRequest::FocusSingle(goal_id) => {
            &&& event == GoalEvent::FocusSingle(goal_id)
            &&& post.focused_goals@ == pre.focused_goals@.insert(goal_id.0)
            &&& post.goals == pre.goals
            &&& post.goal_id_count == pre.goal_id_count
            &&& untouched_but_goals_and_focus(pre, post)
        },
        GoalRequest::UnfocusSingle(goal_id) => {
            &&& event == GoalEvent::UnfocusSingle(goal_id)
            &&& post.focused_goals@ == pre.focused_goals@.remove(goal_id.0)
            &&& post.goals == pre.goals
            &&& post.goal_id_count == pre.goal_id_count
            &&& untouched_but_goals_and_focus(pre, post)
        },
        GoalRequest::Rescope { goal_id, new_effort_to_complete } => {
            &&& event matches GoalEvent::Rescope {
                goal_id: gid,
                new_effort_to_complete: ne,
                original_effort_to_complete: oe,
            } && gid == goal_id && ne == new_effort_to_complete && oe == pre.goals@[goal_id.0].effort_to_complete
            &&& post.goals@[goal_id.0].effort_to_complete == new_effort_to_complete
            &&& post.goals@[goal_id.0].effort_to_date == pre.goals@[goal_id.0].effort_to_date
            &&& post.goals@[goal_id.0].name == pre.goals@[goal_id.0].name
            &&& post.goals@[goal_id.0].children == pre.goals@[goal_id.0].children
            &&& post.goals@.dom() == pre.goals@.dom()
            &&& forall|k: u32|
                #[trigger] pre.goals@.contains_key(k) && k != goal_id.0 ==> post.goals@[k]
                    == pre.goals@[k]
            &&& post.focused_goals == pre.focused_goals
            &&& post.goal_id_count == pre.goal_id_count
            &&& untouched_but_goals_and_focus(pre, post)
        },
        GoalRequest::Add { name, effort_to_complete } => {
            &&& event matches GoalEvent::Add { goal_id } && goal_id.0 == pre.goal_id_count
            &&& post.goals@ == pre.goals@.insert(pre.goal_id_count, post.goals@[pre.goal_id_count])
            &&& !pre.goals@.contains_key(pre.goal_id_count)
            &&& post.goals@[pre.goal_id_count].name@ == name@
            &&& post.goals@[pre.goal_id_count].effort_to_date == 0
            &&& post.goals@[pre.goal_id_count].effort_to_complete == effort_to_complete
            &&& post.goals@[pre.goal_id_count].children@.len() == 0
            &&& post.goal_id_count == pre.goal_id_count + 1
            &&& post.focused_goals == pre.focused_goals
            &&& untouched_but_goals_and_focus(pre, post)
        },
        GoalRequest::Refine {
            parent_goal_id,
            parent_effort_removed,
            child_name,
            child_effort_to_complete,
        } => {
            &&& event matches GoalEvent::Refine {
                parent_goal_id: pid,
                parent_effort_removed: pe,
                new_child_goal_id: cid,
            } && pid == parent_goal_id && pe == parent_effort_removed && cid.0
                == pre.goal_id_count
            &&& post.goals@.dom() == pre.goals@.dom().insert(pre.goal_id_count)
            &&& !pre.goals@.contains_key(pre.goal_id_count)
            &&& post.goals@[parent_goal_id.0].children@ == pre.goals@[parent_goal_id.0].children@.push(GoalId(pre.goal_id_count))
            &&& post.goals@[parent_goal_id.0].effort_to_complete == if pre.goals@[parent_goal_id.0].effort_to_complete >= parent_effort_removed {
                pre.goals@[parent_goal_id.0].effort_to_complete - parent_effort_removed
            } else {
                0
            }
            &&& post.goals@[parent_goal_id.0].effort_to_date == pre.goals@[parent_goal_id.0].effort_to_date
            &&& post.goals@[parent_goal_id.0].name == pre.goals@[parent_goal_id.0].name
            &&& post.goals@[pre.goal_id_count].name@ == child_name@
            &&& post.goals@[pre.goal_id_count].effort_to_date == 0
            &&& post.goals@[pre.goal_id_count].effort_to_complete == child_effort_to_complete
            &&& post.goals@[pre.goal_id_count].children@.len() == 0
            &&& forall|k: u32|
                #[trigger] pre.goals@.contains_key(k) && k != parent_goal_id.0 ==> post.goals@[k]
                    == pre.goals@[k]
            &&& post.goal_id_count == pre.goal_id_count + 1
            &&& post.focused_goals == pre.focused_goals
            &&& untouched_but_goals_and_focus(pre, post)
        },
        GoalRequest::Delete(goal_id) => {
            let sub = descendants(pre.goals@, goal_id.0).insert(goal_id.0);
            &&& event matches GoalEvent::Delete { deleted_goal_tree } && deleted_goal_tree.id
                == goal_id && pg_matches(pre.goals@, deleted_goal_tree) && (match deleted_goal_tree
                .parent_goal_id {
                Some(par) => pre.goals@.contains_key(par.0) && pre.goals@[par.0].child_ids().contains(goal_id.0) && post.goals@.contains_key(par.0)
                    && !post.goals@[par.0].children@.contains(goal_id) && (forall|k: u32|
                    #[trigger] post.goals@.contains_key(k) && k != par.0 ==> post.goals@[k]
                        == pre.goals@[k]),
                None => forall|k: u32|
                    #[trigger] post.goals@.contains_key(k) ==> post.goals@[k] == pre.goals@[k],
            })
            &&& post.goals@.dom() == pre.goals@.dom().difference(sub)
            &&& post.focused_goals@ == pre.focused_goals@.difference(sub)
            &&& post.events@.dom() == pre.events@.dom()
            &&& forall|k: u32|
                #[trigger] pre.events@.contains_key(k) ==> crate::event::event_shell_eq(
                    pre.events@[k],
                    post.events@[k],
                ) && (forall|rr: GoalRelationship|
                    #[trigger] post.events@[k].spec_goal_relationships().contains(rr)
                        ==> pre.events@[k].spec_goal_relationships().contains(rr) && !sub.contains(
                        crate::event::rel_target(rr),
                    )) && (forall|rr: GoalRelationship|
                    #[trigger] pre.events@[k].spec_goal_relationships().contains(rr)
                        && !sub.contains(crate::event::rel_target(rr)) ==> post.events@[k].spec_goal_relationships().contains(rr))
            &&& post.goal_id_count == pre.goal_id_count
            &&& post.event_id_count == pre.event_id_count
            &&& post.time_of_day_config == pre.time_of_day_config
        },
        GoalRequest::Rename { goal_id, new_name } => {
            &&& event matches GoalEvent::Rename { goal_id: gid, old_name } && gid == goal_id
                && old_name@ == pre.goals@[goal_id.0].name@
            &&& post.goals@[goal_id.0].name@ == new_name@
            &&& post.goals@[goal_id.0].effort_to_date == pre.goals@[goal_id.0].effort_to_date
            &&& post.goals@[goal_id.0].effort_to_complete == pre.goals@[goal_id.0].effort_to_complete
            &&& post.goals@[goal_id.0].children == pre.goals@[goal_id.0].children
            &&& post.goals@.dom() == pre.goals@.dom()
            &&& forall|k: u32|
                #[trigger] pre.goals@.contains_key(k) && k != goal_id.0 ==> post.goals@[k]
                    == pre.goals@[k]
            &&& post.focused_goals == pre.focused_goals
            &&& post.goal_id_count == pre.goal_id_count
            &&& untouched_but_goals_and_focus(pre, post)
        },
    }
}

/// A store that can translate requests into mutations and events.
pub trait GoalRequestHandler {
    /// The handler's own consistency condition.
    spec fn handler_inv(&self) -> bool;

    /// When the handler accepts a request without risking arithmetic
    /// overflow (id counters and effort tallies are finite).
    spec fn can_handle(&self, request: GoalRequest) -> bool;

    fn handle_request(&mut self, request: GoalRequest) -> (r: Vec<GoalEvent>)
        requires
            old(self).handler_inv(),
            old(self).can_handle(request),
        ensures
            final(self).handler_inv(),
    ;
}

impl GoalRequestHandler for Profile {
    open spec fn handler_inv(&self) -> bool {
        self.wf()
    }

    open spec fn can_handle(&self, request: GoalRequest) -> bool {
        match request {
            GoalRequest::AddEffort { goal_id, effort } => self.goals@.contains_key(goal_id.0)
                ==> self.goals@[goal_id.0].effort_to_date + effort <= u32::MAX,
            GoalRequest::Add { .. } => self.goal_id_count < u32::MAX,
            GoalRequest::Refine { .. } => self.goal_id_count < u32::MAX,
            _ => true,
        }
    }

    /// One request maps to one store call.  Exactly one event comes back
    /// when the request applied; none when its target was unknown, in which
    /// case the store is untouched.
    fn handle_request(&mut self, request: GoalRequest) -> (r: Vec<GoalEvent>)
        ensures
            final(self).wf(),
            r@.len() <= 1,
            r@.len() == 1 <==> request_applies(*old(self), request),
            r@.len() == 0 ==> *final(self) == *old(self),
            r@.len() == 1 ==> request_effect(*old(self), *final(self), request, r@[0]),
    {
        match request {
            GoalRequest::AddEffort { goal_id, effort } => {
                match self.get_goal_mut(goal_id) {
                    Some(goal) => {
                        goal.add_effort(effort);
                        proof {
                            assert(final(goal).child_ids() == old(self).goals@[goal_id.0].child_ids());
                        }
                        proof {
                            assert(self.goals@.dom() =~= old(self).goals@.dom());
                        }
                        let mut events: Vec<GoalEvent> = Vec::new();
                        events.push(GoalEvent::AddEffort { goal_id, effort });
                        events
                    },
                    None => Vec::new(),
                }
            },
            GoalRequest::RemoveEffort { goal_id, effort } => {
                match self.get_goal_mut(goal_id) {
                    Some(goal) => {
                        goal.remove_effort(effort);
                        proof {
                            assert(final(goal).child_ids() == old(self).goals@[goal_id.0].child_ids());
                        }
                        proof {
                            assert(self.goals@.dom() =~= old(self).goals@.dom());
                        }
                        let mut events: Vec<GoalEvent> = Vec::new();
                        events.push(GoalEvent::RemoveEffort { goal_id, effort });
                        events
                    },
                    None => Vec::new(),
                }
            },
            GoalRequest::Focus(goal_id) => {
                match self.focus_goal(goal_id) {
                    Some(mut focused_ids) => {
                        focused_ids.remove(goal_id.0);
                        proof {
                            assert(focused_ids@ =~= descendants(
                                old(self).goals@,
                                goal_id.0,
                            ).difference(old(self).focused_goals@)) by {
                                if descendants(old(self).goals@, goal_id.0).contains(goal_id.0) {
                                    crate::profile::goal_traversal::lemma_reaches_in_dom(
                                        old(self).goals@,
                                        goal_id.0,
                                        goal_id.0,
                                    );
                                }
                            }
                        }
                        let mut events: Vec<GoalEvent> = Vec::new();
                        events.push(
                            GoalEvent::Focus {
                                focus_root_id: goal_id,
                                focused_children: focused_ids,
                            },
                        );
                        events
                    },
                    None => Vec::new(),
                }
            },
            GoalRequest::Unfocus(goal_id) => {
                match self.unfocus_goal(goal_id) {
                    Some(mut unfocused_ids) => {
                        unfocused_ids.remove(goal_id.0);
                        proof {
                            assert(unfocused_ids@ =~= descendants(
                                old(self).goals@,
                                goal_id.0,
                            ).intersect(old(self).focused_goals@)) by {
                                if descendants(old(self).goals@, goal_id.0).contains(goal_id.0) {
                                    crate::profile::goal_traversal::lemma_reaches_in_dom(
                                        old(self).goals@,
                                        goal_id.0,
                                        goal_id.0,
                                    );
                                }
                            }
                        }
                        let mut events: Vec<GoalEvent> = Vec::new();
                        events.push(
                            GoalEvent::Unfocus {
                                unfocus_root_id: goal_id,
                                unfocused_children: unfocused_ids,
                            },
                        );
                        events
                    },
                    None => Vec::new(),
                }
            },
            GoalRequest::FocusSingle(goal_id) => {
                if self.focus_single_goal(goal_id) {
                    let mut events: Vec<GoalEvent> = Vec::new();
                    events.push(GoalEvent::FocusSingle(goal_id));
                    events
                } else {
                    Vec::new()
                }
            },
            GoalRequest::UnfocusSingle(goal_id) => {
                if self.unfocus_single_goal(goal_id) {
                    let mut events: Vec<GoalEvent> = Vec::new();
                    events.push(GoalEvent::UnfocusSingle(goal_id));
                    events
                } else {
                    Vec::new()
                }
            },
            GoalRequest::Rescope { goal_id, new_effort_to_complete } => {
                match self.rescope_goal(goal_id, new_effort_to_complete) {
                    Some(original_effort_to_complete) => {
                        let mut events: Vec<GoalEvent> = Vec::new();
                        events.push(
                            GoalEvent::Rescope {
                                goal_id,
                                new_effort_to_complete,
                                original_effort_to_complete,
                            },
                        );
                        events
                    },
                    None => Vec::new(),
                }
            },
            GoalRequest::Add { name, effort_to_complete } => {
                let goal_id = self.add_goal(Goal::new(name, effort_to_complete));
                let mut events: Vec<GoalEvent> = Vec::new();
                events.push(GoalEvent::Add { goal_id });
                events
            },
            GoalRequest::Refine {
                parent_goal_id,
                parent_effort_removed,
                child_name,
                child_effort_to_complete,
            } => {
                match self.refine_goal(
                    Goal::new(child_name, child_effort_to_complete),
                    parent_goal_id,
                    parent_effort_removed,
                ) {
                    Some(child_goal_id) => {
                        let mut events: Vec<GoalEvent> = Vec::new();
                        events.push(
                            GoalEvent::Refine {
                                parent_goal_id,
                                parent_effort_removed,
                                new_child_goal_id: child_goal_id,
                            },
                        );
                        events
                    },
                    None => Vec::new(),
                }
            },
            GoalRequest::Delete(goal_id) => {
                match self.remove_goal(goal_id) {
                    Some(deleted_goal_tree) => {
                        let mut events: Vec<GoalEvent> = Vec::new();
                        events.push(GoalEvent::Delete { deleted_goal_tree });
                        events
                    },
                    None => Vec::new(),
                }
            },
            GoalRequest::Rename { goal_id, new_name } => {
                match self.rename_goal(goal_id, new_name) {
                    Some(old_name) => {
                        let mut events: Vec<GoalEvent> = Vec::new();
                        events.push(GoalEvent::Rename { goal_id, old_name });
                        events
                    },
                    None => Vec::new(),
                }
            },
        }
    }
}

} // verus!
