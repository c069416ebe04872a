//! A cursor over the rendered goal forest: a selected position given by a
//! root index and a child-index path into that root's snapshot.

use vstd::prelude::*;
use crate::goal::{GoalId, PopulatedGoal};
use crate::profile::goal_traversal::{
    pg_node_at, pg_path_valid, traverse_populated_goal_children,
};

verus! {

/// A selected goal: which root, and the child-index path below it.
#[derive(Debug)]
pub struct SelectedGoal {
    pub root_goal_index: usize,
    pub child_index_path: Vec<usize>,
}

/// The index this selection moves when going up or down: the last path
/// entry, or the root index at top level.
pub open spec fn spec_selected_index(s: SelectedGoal) -> usize {
    if s.child_index_path@.len() > 0 {
        s.child_index_path@.last()
    } else {
        s.root_goal_index
    }
}

impl Clone for SelectedGoal {
    fn clone(&self) -> (r: SelectedGoal)
        ensures
            r.root_goal_index == self.root_goal_index,
            r.child_index_path@ == self.child_index_path@,
    {
        let mut path: Vec<usize> = Vec::new();
        let n = self.child_index_path.len();
        let mut i: usize = 0;
        while i < n
            invariant
                n == self.child_index_path@.len(),
                i <= n,
                path@ == self.child_index_path@.take(i as int),
            decreases n - i,
        {
            path.push(self.child_index_path[i]);
            proof {
                assert(path@ =~= self.child_index_path@.take(i as int + 1));
            }
            i = i + 1;
        }
        proof {
            assert(path@ =~= self.child_index_path@);
        }
        SelectedGoal { root_goal_index: self.root_goal_index, child_index_path: path }
    }
}

impl SelectedGoal {
    /// Mutable access to the index that up/down movement changes.
    pub fn selected_index(&mut self) -> (r: &mut usize)
        ensures
            *r == spec_selected_index(*old(self)),
            old(self).child_index_path@.len() > 0 ==> final(self).root_goal_index == old(
                self,
            ).root_goal_index && final(self).child_index_path@ == old(
                self,
            ).child_index_path@.update(old(self).child_index_path@.len() - 1, *final(r)),
            old(self).child_index_path@.len() == 0 ==> final(self).root_goal_index == *final(r)
                && final(self).child_index_path@ == old(self).child_index_path@,
    {
        let n = self.child_index_path.len();
        if n > 0 {
            &mut self.child_index_path[n - 1]
        } else {
            &mut self.root_goal_index
        }
    }

    /// Step the selection back up to its parent; the popped index, if any.
    pub fn pop_child(&mut self) -> (r: Option<usize>)
        ensures
            final(self).root_goal_index == old(self).root_goal_index,
            match r {
                Some(i) => old(self).child_index_path@.len() > 0 && i == old(
                    self,
                ).child_index_path@.last() && final(self).child_index_path@ == old(
                    self,
                ).child_index_path@.drop_last(),
                None => old(self).child_index_path@.len() == 0 && final(self).child_index_path@
                    == old(self).child_index_path@,
            },
    {
        self.child_index_path.pop()
    }

    /// Step the selection down into the child at `index`.
    pub fn push_child(&mut self, index: usize)
        ensures
            final(self).root_goal_index == old(self).root_goal_index,
            final(self).child_index_path@ == old(self).child_index_path@.push(index),
    {
        self.child_index_path.push(index);
    }
}

/// Why a cursor operation could not resolve its selection.
#[derive(Debug)]
pub enum CursorError {
    InvalidRootIndex(SelectedGoal),
    InvalidGoalChild { goal: PopulatedGoal, child_index: usize },
    TraversalError(SelectedGoal),
}

/// The cursor: either nothing, or a selected goal.
#[derive(Debug)]
pub enum Cursor {
    SelectedGoal(Option<SelectedGoal>),
}

impl Default for Cursor {
    /// A cursor starts with nothing selected.
    fn default() -> (r: Cursor)
        ensures
            r == Cursor::SelectedGoal(Option::<SelectedGoal>::None),
    {
        Cursor::SelectedGoal(None)
    }
}

/// The movements a cursor understands.
#[derive(Debug, Clone, Copy, PartialEq, Eq, Hash, Structural)]
pub enum CursorAction {
    Up,
    Down,
    In,
    Out,
}

/// Whether a selection resolves to a node of the rendered forest.
pub open spec fn selection_valid(s: SelectedGoal, goals: Seq<PopulatedGoal>) -> bool {
    (s.root_goal_index as int) < goals.len() && pg_path_valid(
        goals[s.root_goal_index as int],
        s.child_index_path@,
        0,
    )
}

/// The node a valid selection points at.
pub open spec fn selection_node(s: SelectedGoal, goals: Seq<PopulatedGoal>) -> PopulatedGoal {
    pg_node_at(goals[s.root_goal_index as int], s.child_index_path@, 0)
}

/// The sibling group of a selection: the children list it indexes into, or
/// the roots themselves at top level.
pub fn selected_goal_siblings<'a>(selected_goal: &SelectedGoal, goals: &'a Vec<PopulatedGoal>)
    -> (r: Result<&'a Vec<PopulatedGoal>, CursorError>)
    ensures
        match r {
            Ok(sibs) => {
                if selected_goal.child_index_path@.len() == 0 {
                    sibs == goals
                } else {
                    &&& (selected_goal.root_goal_index as int) < goals@.len()
                    &&& pg_path_valid(
                        goals@[selected_goal.root_goal_index as int],
                        selected_goal.child_index_path@.drop_last(),
                        0,
                    )
                    &&& sibs@ == pg_node_at(
                        goals@[selected_goal.root_goal_index as int],
                        selected_goal.child_index_path@.drop_last(),
                        0,
                    ).children@
                }
            },
            Err(CursorError::InvalidRootIndex(s)) => selected_goal.child_index_path@.len() > 0 && (
            selected_goal.root_goal_index as int) >= goals@.len() && s.root_goal_index
                == selected_goal.root_goal_index && s.child_index_path@
                == selected_goal.child_index_path@,
            Err(CursorError::InvalidGoalChild { goal: _, child_index: _ }) => selected_goal.child_index_path@.len()
                > 0 && (selected_goal.root_goal_index as int) < goals@.len() && !pg_path_valid(
                goals@[selected_goal.root_goal_index as int],
                selected_goal.child_index_path@.drop_last(),
                0,
            ),
            Err(CursorError::TraversalError(_)) => false,
        },
{
    let n = selected_goal.child_index_path.len();
    if n == 0 {
        return Ok(goals);
    }
    if selected_goal.root_goal_index >= goals.len() {
        return Err(CursorError::InvalidRootIndex(selected_goal.clone()));
    }
    let root = &goals[selected_goal.root_goal_index];
    let mut current = root;
    let mut i: usize = 0;
    let ghost prefix = selected_goal.child_index_path@.drop_last();
    while i < n - 1
        invariant
            n == selected_goal.child_index_path@.len(),
            n >= 1,
            i <= n - 1,
            prefix == selected_goal.child_index_path@.drop_last(),
            prefix.len() == n - 1,
            forall|j: int| 0 <= j < n - 1 ==> prefix[j] == selected_goal.child_index_path@[j],
            pg_path_valid(*root, prefix.take(i as int), 0),
            *current == pg_node_at(*root, prefix.take(i as int), 0),
            root == &goals@[selected_goal.root_goal_index as int],
            (selected_goal.root_goal_index as int) < goals@.len(),
        decreases n - 1 - i,
    {
        let idx = selected_goal.child_index_path[i];
        proof {
            assert(prefix[i as int] == idx);
        }
        if idx >= current.children.len() {
            proof {
                if pg_path_valid(*root, prefix, 0) {
                    crate::profile::goal_traversal::lemma_valid_path_prefix(
                        *root,
                        prefix,
                        0,
                        i as int,
                    );
                    assert(false);
                }
            }
            return Err(
                CursorError::InvalidGoalChild { goal: current.clone(), child_index: idx },
            );
        }
        let next = &current.children[idx];
        proof {
            crate::profile::goal_traversal::lemma_path_push(*root, prefix.take(i as int), 0, idx);
            assert(prefix.take(i as int).push(idx) =~= prefix.take(i as int + 1));
        }
        current = next;
        i = i + 1;
    }
    proof {
        assert(prefix.take(n - 1) =~= prefix);
    }
    Ok(&current.children)
}

/// The node a selection points at, or why it does not resolve.
pub fn get_selected_goal<'a>(selected_goal: &SelectedGoal, goals: &'a Vec<PopulatedGoal>) -> (r:
    Result<&'a PopulatedGoal, CursorError>)
    ensures
        match r {
            Ok(g) => selection_valid(*selected_goal, goals@) && *g == selection_node(
                *selected_goal,
                goals@,
            ),
            Err(CursorError::InvalidRootIndex(s)) => (selected_goal.root_goal_index as int)
                >= goals@.len() && s.root_goal_index == selected_goal.root_goal_index
                && s.child_index_path@ == selected_goal.child_index_path@,
            Err(CursorError::InvalidGoalChild { goal: _, child_index: _ }) => (
            selected_goal.root_goal_index as int) < goals@.len() && !pg_path_valid(
                goals@[selected_goal.root_goal_index as int],
                selected_goal.child_index_path@,
                0,
            ),
            Err(CursorError::TraversalError(_)) => false,
        },
{
    if selected_goal.root_goal_index >= goals.len() {
        return Err(CursorError::InvalidRootIndex(selected_goal.clone()));
    }
    let root = &goals[selected_goal.root_goal_index];
    match traverse_populated_goal_children(root, &selected_goal.child_index_path) {
        Some(g) => Ok(g),
        None => Err(
            CursorError::InvalidGoalChild { goal: root.clone(), child_index: 0 },
        ),
    }
}

/// The id of the selected goal, or why the selection does not resolve.
pub fn get_selected_goal_id(selected_goal: &SelectedGoal, goals: &Vec<PopulatedGoal>) -> (r:
    Result<GoalId, CursorError>)
    ensures
        match r {
            Ok(id) => selection_valid(*selected_goal, goals@) && id == selection_node(
                *selected_goal,
                goals@,
            ).id,
            Err(_) => !selection_valid(*selected_goal, goals@),
        },
{
    match get_selected_goal(selected_goal, goals) {
        Ok(g) => Ok(g.id),
        Err(e) => Err(e),
    }
}

impl Cursor {
    /// Move the cursor.  With nothing selected, any action selects the
    /// first root if one exists.  Up and down move within the sibling
    /// group, flooring and capping at its ends; in steps to a first child
    /// if there is one; out steps to the parent, clearing the selection at
    /// top level.
    pub fn handle_action(&mut self, action: CursorAction, goals: &Vec<PopulatedGoal>) -> (r:
        Result<(), CursorError>)
        ensures
            r is Err ==> *final(self) == *old(self),
            match *old(self) {
                Cursor::SelectedGoal(None) => r is Ok && (goals@.len() > 0 ==> (*final(self)
                    matches Cursor::SelectedGoal(Some(s)) && s.root_goal_index == 0
                    && s.child_index_path@.len() == 0)) && (goals@.len() == 0 ==> *final(self)
                    == *old(self)),
                Cursor::SelectedGoal(Some(sel)) => match action {
                    CursorAction::Up => r is Ok && (*final(self) matches Cursor::SelectedGoal(
                        Some(s2),
                    ) && s2.child_index_path@.len() == sel.child_index_path@.len()
                        && spec_selected_index(s2) == (if spec_selected_index(sel) > 0 {
                        (spec_selected_index(sel) - 1) as usize
                    } else {
                        spec_selected_index(sel)
                    }) && (sel.child_index_path@.len() > 0 ==> s2.root_goal_index
                        == sel.root_goal_index) && (sel.child_index_path@.len() == 0
                        ==> s2.child_index_path@ == sel.child_index_path@)),
                    CursorAction::Down => r is Ok ==> (*final(self) matches Cursor::SelectedGoal(
                        Some(s2),
                    ) && s2.child_index_path@.len() == sel.child_index_path@.len() && (
                    spec_selected_index(s2) == spec_selected_index(sel) || spec_selected_index(s2)
                        == spec_selected_index(sel) + 1) && (sel.child_index_path@.len() > 0
                        ==> s2.root_goal_index == sel.root_goal_index) && (
                    sel.child_index_path@.len() == 0 ==> s2.child_index_path@
                        == sel.child_index_path@)),
                    CursorAction::In => r is Ok ==> (*final(self) matches Cursor::SelectedGoal(
                        Some(s2),
                    ) && s2.root_goal_index == sel.root_goal_index && (s2.child_index_path@
                        == sel.child_index_path@ || s2.child_index_path@
                        == sel.child_index_path@.push(0usize))),
                    CursorAction::Out => r is Ok && (sel.child_index_path@.len() > 0 ==> (*final(self) matches Cursor::SelectedGoal(Some(s2)) && s2.root_goal_index
                        == sel.root_goal_index && s2.child_index_path@
                        == sel.child_index_path@.drop_last())) && (sel.child_index_path@.len()
                        == 0 ==> *final(self) == Cursor::SelectedGoal(
                        Option::<SelectedGoal>::None,
                    )),
                },
            },
    {
        match self {
            Cursor::SelectedGoal(selected_goal_index_path) => {
                match selected_goal_index_path {
                    Some(selected_goal) => {
                        match action {
                            CursorAction::Down => {
                                let sibling_count = match selected_goal_siblings(
                                    selected_goal,
                                    goals,
                                ) {
                                    Ok(sibs) => sibs.len(),
                                    Err(e) => {
                                        return Err(e);
                                    },
                                };
                                let selected_goal_index = selected_goal.selected_index();
                                let cur = *selected_goal_index;
                                if sibling_count > 0 && cur < sibling_count - 1 {
                                    *selected_goal_index = cur + 1;
                                }
                                Ok(())
                            },
                            CursorAction::Up => {
                                let selected_goal_index = selected_goal.selected_index();
                                let cur = *selected_goal_index;
                                if cur > 0 {
                                    *selected_goal_index = cur - 1;
                                }
                                Ok(())
                            },
                            CursorAction::In => {
                                if selected_goal.root_goal_index >= goals.len() {
                                    return Err(
                                        CursorError::InvalidRootIndex(selected_goal.clone()),
                                    );
                                }
                                let root_goal = &goals[selected_goal.root_goal_index];
                                let has_children = match traverse_populated_goal_children(
                                    root_goal,
                                    &selected_goal.child_index_path,
                                ) {
                                    Some(selected_goal_data) => selected_goal_data.children.len()
                                        > 0,
                                    None => {
                                        return Err(
                                            CursorError::TraversalError(selected_goal.clone()),
                                        );
                                    },
                                };
                                if has_children {
                                    selected_goal.push_child(0);
                                }
                                Ok(())
                            },
                            CursorAction::Out => {
                                if selected_goal.pop_child().is_none() {
                                    *selected_goal_index_path = None;
                                }
                                Ok(())
                            },
                        }
                    },
                    None => {
                        if goals.len() > 0 {
                            let empty_path: Vec<usize> = Vec::new();
                            *selected_goal_index_path = Some(
                                SelectedGoal { root_goal_index: 0, child_index_path: empty_path },
                            );
                        }
                        Ok(())
                    },
                }
            },
        }
    }
}

} // verus!
