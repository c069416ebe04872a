//! Goals: tree nodes carrying a name, two effort counters and an ordered
//! list of child ids.

use vstd::prelude::*;
use crate::arena::IdSet;

verus! {

/// Opaque goal id, allocated from a per-store monotonic counter.
#[derive(Debug, Clone, Copy, PartialEq, Eq, Hash, PartialOrd, Ord, Structural)]
pub struct GoalId(pub u32);

/// How an event relates to a goal.
#[derive(Debug, Clone, Copy)]
pub enum GoalRelationship {
    Requires(GoalId),
    Ends(GoalId),
    WorksOn(GoalId),
    Starts(GoalId),
}

/// A single node of the goal forest.  There is no parent pointer; parents are
/// derived by scanning children lists.
#[derive(Debug, Clone)]
pub struct Goal {
    pub name: String,
    pub effort_to_date: u32,
    pub effort_to_complete: u32,
    pub children: Vec<GoalId>,
}

/// A read-only nested snapshot of a goal subtree, annotated with layout
/// metrics for renderers.
#[derive(Debug)]
pub struct PopulatedGoal {
    pub id: GoalId,
    pub parent_goal_id: Option<GoalId>,
    pub name: String,
    pub effort_to_date: u32,
    pub effort_to_complete: u32,
    pub max_child_layer_width: usize,
    pub max_child_depth: usize,
    pub children: Vec<PopulatedGoal>,
}

/// Structural failures when a children list is edited directly.
#[derive(Debug, Clone)]
pub enum GoalOperationError {
    CannotHaveDuplicateChildren(String, GoalId),
    NoSuchChild(String, GoalId),
}

/// A record of one store mutation, kept in a write-only history log.
#[derive(Debug)]
pub enum GoalEvent {
    AddEffort { goal_id: GoalId, effort: u32 },
    RemoveEffort { goal_id: GoalId, effort: u32 },
    Focus { focus_root_id: GoalId, focused_children: IdSet },
    Unfocus { unfocus_root_id: GoalId, unfocused_children: IdSet },
    FocusSingle(GoalId),
    UnfocusSingle(GoalId),
    Rescope { goal_id: GoalId, new_effort_to_complete: u32, original_effort_to_complete: u32 },
    Add { goal_id: GoalId },
    Refine { parent_goal_id: GoalId, parent_effort_removed: u32, new_child_goal_id: GoalId },
    Delete { deleted_goal_tree: PopulatedGoal },
    Rename { goal_id: GoalId, old_name: String },
}

/// Structural equality of two snapshots up to string representation: every
/// field agrees, and the children agree pairwise.
pub open spec fn pg_like(a: PopulatedGoal, b: PopulatedGoal) -> bool
    decreases a,
{
    &&& a.id == b.id
    &&& a.parent_goal_id == b.parent_goal_id
    &&& a.name@ == b.name@
    &&& a.effort_to_date == b.effort_to_date
    &&& a.effort_to_complete == b.effort_to_complete
    &&& a.max_child_layer_width == b.max_child_layer_width
    &&& a.max_child_depth == b.max_child_depth
    &&& a.children@.len() == b.children@.len()
    &&& forall|i: int|
        0 <= i < a.children@.len() ==> pg_like(#[trigger] a.children@[i], b.children@[i])
}

impl Clone for PopulatedGoal {
    /// Deep copy; the result mirrors the original field for field.
    fn clone(&self) -> (r: PopulatedGoal)
        ensures
            pg_like(*self, r),
        decreases *self,
    {
        let mut children: Vec<PopulatedGoal> = Vec::new();
        let n = self.children.len();
        let mut i: usize = 0;
        while i < n
            invariant
                n == self.children@.len(),
                i <= n,
                children@.len() == i,
                forall|j: int| 0 <= j < i ==> pg_like(self.children@[j], #[trigger] children@[j]),
            decreases n - i,
        {
            let c = self.children[i].clone();
            children.push(c);
            i = i + 1;
        }
        PopulatedGoal {
            id: self.id,
            parent_goal_id: self.parent_goal_id,
            name: self.name.clone(),
            effort_to_date: self.effort_to_date,
            effort_to_complete: self.effort_to_complete,
            max_child_layer_width: self.max_child_layer_width,
            max_child_depth: self.max_child_depth,
            children,
        }
    }
}

impl Goal {
    /// The children as raw `u32` ids, for store-level reasoning.
    pub open spec fn child_ids(self) -> Seq<u32> {
        self.children@.map_values(|c: GoalId| c.0)
    }

    pub open spec fn spec_finished(self) -> bool {
        self.effort_to_date >= self.effort_to_complete
    }

    pub fn new(name: String, effort_to_complete: u32) -> (r: Goal)
        ensures
            r.name == name,
            r.effort_to_date == 0,
            r.effort_to_complete == effort_to_complete,
            r.children@.len() == 0,
    {
        Goal { name, effort_to_date: 0, effort_to_complete, children: Vec::new() }
    }

    pub fn name(&self) -> (r: &str)
        ensures
            r@ == self.name@,
    {
        self.name.as_str()
    }

    /// Replace the name, returning the old one.
    pub fn rename(&mut self, new_name: String) -> (r: String)
        ensures
            r@ == old(self).name@,
            final(self).name == new_name,
            final(self).effort_to_date == old(self).effort_to_date,
            final(self).effort_to_complete == old(self).effort_to_complete,
            final(self).children == old(self).children,
    {
        let old_name = self.name.clone();
        self.name = new_name;
        old_name
    }

    pub fn add_effort(&mut self, effort: u32)
        requires
            old(self).effort_to_date + effort <= u32::MAX,
        ensures
            final(self).effort_to_date == old(self).effort_to_date + effort,
            final(self).effort_to_complete == old(self).effort_to_complete,
            final(self).name == old(self).name,
            final(self).children == old(self).children,
    {
        self.effort_to_date = self.effort_to_date + effort;
    }

    /// Saturating: the counter floors at 0, whatever is removed.
    pub fn remove_effort(&mut self, effort: u32)
        ensures
            final(self).effort_to_date == if old(self).effort_to_date >= effort {
                old(self).effort_to_date - effort
            } else {
                0
            },
            final(self).effort_to_complete == old(self).effort_to_complete,
            final(self).name == old(self).name,
            final(self).children == old(self).children,
    {
        self.effort_to_date = self.effort_to_date.saturating_sub(effort);
    }

    pub fn rescope(&mut self, new_effort: u32)
        ensures
            final(self).effort_to_complete == new_effort,
            final(self).effort_to_date == old(self).effort_to_date,
            final(self).name == old(self).name,
            final(self).children == old(self).children,
    {
        self.effort_to_complete = new_effort;
    }

    /// Add `effort_done` and settle the required total at the new tally, so
    /// that the goal is exactly finished.
    pub fn rescope_by_finish(&mut self, effort_done: u32)
        requires
            old(self).effort_to_date + effort_done <= u32::MAX,
        ensures
            final(self).effort_to_date == old(self).effort_to_date + effort_done,
            final(self).effort_to_complete == final(self).effort_to_date,
            final(self).name == old(self).name,
            final(self).children == old(self).children,
    {
        self.effort_to_date = self.effort_to_date + effort_done;
        self.effort_to_complete = self.effort_to_date;
    }

    /// Whether `c` is already a child.
    pub(crate) fn has_child(&self, c: GoalId) -> (r: bool)
        ensures
            r == self.children@.contains(c),
    {
        let n = self.children.len();
        let mut i: usize = 0;
        while i < n
            invariant
                n == self.children@.len(),
                i <= n,
                forall|j: int| 0 <= j < i ==> self.children@[j] != c,
            decreases n - i,
        {
            if self.children[i] == c {
                proof {
                    assert(self.children@.contains(c));
                }
                return true;
            }
            i = i + 1;
        }
        false
    }

    /// Position of the first occurrence of `c` among the children.
    fn child_position(&self, c: GoalId) -> (r: Option<usize>)
        ensures
            match r {
                Some(i) => i < self.children@.len() && self.children@[i as int] == c && forall|
                    j: int,
                |
                    0 <= j < i ==> self.children@[j] != c,
                None => !self.children@.contains(c),
            },
    {
        let n = self.children.len();
        let mut i: usize = 0;
        while i < n
            invariant
                n == self.children@.len(),
                i <= n,
                forall|j: int| 0 <= j < i ==> self.children@[j] != c,
            decreases n - i,
        {
            if self.children[i] == c {
                return Some(i);
            }
            i = i + 1;
        }
        None
    }

    /// Reduce the required effort by `effort_removed` (floored at 0) and
    /// append `child` to the children list.  Rejects a child id that is
    /// already present; the effort reduction happens either way.
    pub fn refine(&mut self, child: GoalId, effort_removed: u32) -> (r: Result<
        (),
        GoalOperationError,
    >)
        ensures
            final(self).effort_to_complete == if old(self).effort_to_complete >= effort_removed {
                old(self).effort_to_complete - effort_removed
            } else {
                0
            },
            final(self).effort_to_date == old(self).effort_to_date,
            final(self).name == old(self).name,
            old(self).children@.contains(child) ==> final(self).children == old(self).children && (
            r matches Err(GoalOperationError::CannotHaveDuplicateChildren(n, c))
                && n@ == old(self).name@ && c == child),
            !old(self).children@.contains(child)
                ==> final(self).children@ == old(self).children@.push(child) && r is Ok,
    {
        self.effort_to_complete = self.effort_to_complete.saturating_sub(effort_removed);
        if self.has_child(child) {
            return Err(GoalOperationError::CannotHaveDuplicateChildren(self.name.clone(), child));
        }
        self.children.push(child);
        Ok(())
    }

    /// Remove the first occurrence of `child` from the children list; true if
    /// it was present.
    pub fn remove_child(&mut self, child: GoalId) -> (r: bool)
        ensures
            r == old(self).children@.contains(child),
            final(self).effort_to_date == old(self).effort_to_date,
            final(self).effort_to_complete == old(self).effort_to_complete,
            final(self).name == old(self).name,
            !r ==> final(self).children == old(self).children,
            r ==> exists|i: int|
                0 <= i < old(self).children@.len() && old(self).children@[i] == child && (forall|
                    j: int,
                |
                    0 <= j < i ==> old(self).children@[j] != child)
                    && final(self).children@ == old(self).children@.remove(i),
    {
        match self.child_position(child) {
            Some(i) => {
                let ghost old_children = self.children@;
                self.children.remove(i);
                proof {
                    assert(old_children.contains(child));
                    assert(final(self).children@ == old_children.remove(i as int));
                }
                true
            },
            None => false,
        }
    }

    /// A goal is finished once the effort to date reaches the effort to
    /// complete.
    pub fn finished(&self) -> (r: bool)
        ensures
            r == self.spec_finished(),
    {
        self.effort_to_date >= self.effort_to_complete
    }

    pub fn unfinished(&self) -> (r: bool)
        ensures
            r == !self.spec_finished(),
    {
        !self.finished()
    }

    pub fn effort_to_complete(&self) -> (r: u32)
        ensures
            r == self.effort_to_complete,
    {
        self.effort_to_complete
    }

    pub fn effort_to_date(&self) -> (r: u32)
        ensures
            r == self.effort_to_date,
    {
        self.effort_to_date
    }

    pub fn children(&self) -> (r: &Vec<GoalId>)
        ensures
            r == &self.children,
    {
        &self.children
    }

    /// Exchange the positions of two existing children.  Fails with
    /// `NoSuchChild` naming whichever of the two is absent (`child_a`
    /// checked first).
    pub fn swap_children(&mut self, child_a: GoalId, child_b: GoalId) -> (r: Result<
        (),
        GoalOperationError,
    >)
        ensures
            final(self).effort_to_date == old(self).effort_to_date,
            final(self).effort_to_complete == old(self).effort_to_complete,
            final(self).name == old(self).name,
            !old(self).children@.contains(child_a) ==> final(self).children == old(self).children
                && (r matches Err(GoalOperationError::NoSuchChild(n, c)) && n@ == old(self).name@
                && c == child_a),
            old(self).children@.contains(child_a) && !old(self).children@.contains(child_b)
                ==> final(self).children == old(self).children && (r matches Err(
                GoalOperationError::NoSuchChild(n, c),
            ) && n@ == old(self).name@ && c == child_b),
            old(self).children@.contains(child_a) && old(self).children@.contains(child_b) ==> r
                is Ok && exists|ia: int, ib: int|
                0 <= ia < old(self).children@.len() && 0 <= ib < old(self).children@.len()
                    && old(self).children@[ia] == child_a && old(self).children@[ib] == child_b
                    && final(self).children@ == old(self).children@.update(ia, child_b).update(
                    ib,
                    child_a,
                ),
    {
        match self.child_position(child_a) {
            Some(ia) => {
                match self.child_position(child_b) {
                    Some(ib) => {
                        let ghost old_children = self.children@;
                        let va = self.children[ia];
                        let vb = self.children[ib];
                        self.children[ia] = vb;
                        self.children[ib] = va;
                        proof {
                            assert(final(self).children@ == old_children.update(
                                ia as int,
                                child_b,
                            ).update(ib as int, child_a));
                        }
                        Ok(())
                    },
                    None => Err(
                        GoalOperationError::NoSuchChild(self.name.clone(), child_b),
                    ),
                }
            },
            None => Err(GoalOperationError::NoSuchChild(self.name.clone(), child_a)),
        }
    }
}

} // verus!
