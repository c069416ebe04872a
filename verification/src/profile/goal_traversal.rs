//! The tree traversal engine and its clients.
//!
//! A goal forest lives in a flat id-keyed arena; the tree structure is
//! implicit in each goal's ordered children list.  The engine walks one
//! goal's subtree iteratively with an explicit work stack, threading an
//! arbitrary per-node accumulator from parent to child, and collects the set
//! of visited descendant ids.  The populator and the predicate visitors are
//! built on the same walk.
//!
//! The store keeps every edge pointing from a smaller id to a strictly
//! larger one (children are always allocated after their parent), each child
//! list free of duplicates, and each id under at most one parent.  That is
//! the `forest_wf` well-formedness predicate; it rules out cycles and shared
//! subtrees and is what makes the walk terminate.

use vstd::prelude::*;
use vstd::set_lib::lemma_len_subset;
use crate::arena::{IdMap, IdSet};
use crate::goal::{Goal, GoalId, PopulatedGoal};

verus! {

/// Well-formedness of the flat goal map: children exist, edges strictly
/// increase ids, no duplicate children under one parent, and no id has two
/// parents.
pub open spec fn forest_wf(m: Map<u32, Goal>) -> bool {
    &&& forall|k: u32, i: int|
        m.dom().contains(k) && 0 <= i < m[k].child_ids().len() ==> m.dom().contains(
            #[trigger] m[k].child_ids()[i],
        ) && m[k].child_ids()[i] > k
    &&& forall|k: u32| #[trigger] m.dom().contains(k) ==> m[k].child_ids().no_duplicates()
    &&& forall|k1: u32, k2: u32, c: u32|
        m.dom().contains(k1) && m.dom().contains(k2) && #[trigger] m[k1].child_ids().contains(c)
            && #[trigger] m[k2].child_ids().contains(c) ==> k1 == k2
}

/// Every step of `p` goes from a goal in the map to one of its children.
pub open spec fn path_ok(m: Map<u32, Goal>, p: Seq<u32>) -> bool {
    forall|i: int|
        0 <= i < p.len() - 1 ==> m.dom().contains(#[trigger] p[i]) && m[p[i]].child_ids().contains(
            p[i + 1],
        )
}

/// `x` lies strictly below `root`: some non-trivial child path connects them.
#[verifier::opaque]
pub open spec fn reaches(m: Map<u32, Goal>, root: u32, x: u32) -> bool {
    exists|p: Seq<u32>|
        #[trigger] path_ok(m, p) && p.len() >= 2 && p.first() == root && p.last() == x
}

/// The ids of the proper descendants of `root`.
pub open spec fn descendants(m: Map<u32, Goal>, root: u32) -> Set<u32> {
    Set::new(|x: u32| reaches(m, root, x))
}

/// A child is a descendant.
pub proof fn lemma_reaches_child(m: Map<u32, Goal>, a: u32, c: u32)
    requires
        m.dom().contains(a),
        m[a].child_ids().contains(c),
    ensures
        reaches(m, a, c),
{
    reveal(reaches);
    let p = seq![a, c];
    assert(path_ok(m, p));
    assert(p.first() == a && p.last() == c && p.len() == 2);
}

/// A child of a descendant is a descendant.
pub proof fn lemma_reaches_extend(m: Map<u32, Goal>, root: u32, a: u32, c: u32)
    requires
        reaches(m, root, a),
        m.dom().contains(a),
        m[a].child_ids().contains(c),
    ensures
        reaches(m, root, c),
{
    reveal(reaches);
    let p = choose|p: Seq<u32>|
        #[trigger] path_ok(m, p) && p.len() >= 2 && p.first() == root && p.last() == a;
    let q = p.push(c);
    assert forall|i: int| 0 <= i < q.len() - 1 implies m.dom().contains(#[trigger] q[i])
        && m[q[i]].child_ids().contains(q[i + 1]) by {
        if i < p.len() - 1 {
            assert(q[i] == p[i]);
            assert(q[i + 1] == p[i + 1]);
        } else {
            assert(q[i] == p.last());
            assert(q[i + 1] == c);
        }
    }
    assert(path_ok(m, q));
    assert(q.first() == root && q.last() == c && q.len() >= 2);
}

/// Along a well-formed path the ids strictly increase.
proof fn lemma_path_increases(m: Map<u32, Goal>, p: Seq<u32>)
    requires
        forest_wf(m),
        path_ok(m, p),
        p.len() >= 2,
    ensures
        p.last() > p.first(),
        m.dom().contains(p.last()),
    decreases p.len(),
{
    let k = p[p.len() - 2];
    let c = p.last();
    assert(m.dom().contains(k) && m[k].child_ids().contains(c));
    let i = choose|i: int| 0 <= i < m[k].child_ids().len() && m[k].child_ids()[i] == c;
    assert(m.dom().contains(m[k].child_ids()[i]) && m[k].child_ids()[i] > k);
    if p.len() == 2 {
    } else {
        let p0 = p.drop_last();
        assert forall|i: int| 0 <= i < p0.len() - 1 implies m.dom().contains(#[trigger] p0[i])
            && m[p0[i]].child_ids().contains(p0[i + 1]) by {
            assert(p0[i] == p[i]);
            assert(p0[i + 1] == p[i + 1]);
        }
        lemma_path_increases(m, p0);
        assert(p0.last() == k && p0.first() == p.first());
    }
}

/// Descendants sit in the map, strictly above their root.
pub proof fn lemma_reaches_in_dom(m: Map<u32, Goal>, root: u32, x: u32)
    requires
        forest_wf(m),
        reaches(m, root, x),
    ensures
        m.dom().contains(x),
        x > root,
{
    reveal(reaches);
    let p = choose|p: Seq<u32>|
        #[trigger] path_ok(m, p) && p.len() >= 2 && p.first() == root && p.last() == x;
    lemma_path_increases(m, p);
}

/// A set that holds the root's children and is closed under taking children
/// holds every descendant of the root.
pub proof fn lemma_closed_set_contains_descendants(m: Map<u32, Goal>, root: u32, s: Set<u32>)
    requires
        m.dom().contains(root),
        forall|c: u32| #[trigger] m[root].child_ids().contains(c) ==> s.contains(c),
        forall|x: u32| #[trigger] s.contains(x) ==> m.dom().contains(x),
        forall|x: u32, c: u32|
            s.contains(x) && #[trigger] m[x].child_ids().contains(c) ==> s.contains(c),
    ensures
        forall|x: u32| reaches(m, root, x) ==> s.contains(x),
{
    reveal(reaches);
    assert forall|x: u32| reaches(m, root, x) implies s.contains(x) by {
        let p = choose|p: Seq<u32>|
            #[trigger] path_ok(m, p) && p.len() >= 2 && p.first() == root && p.last() == x;
        lemma_path_tail_in_closed(m, root, s, p);
    }
}

proof fn lemma_path_tail_in_closed(m: Map<u32, Goal>, root: u32, s: Set<u32>, p: Seq<u32>)
    requires
        m.dom().contains(root),
        forall|c: u32| #[trigger] m[root].child_ids().contains(c) ==> s.contains(c),
        forall|x: u32| #[trigger] s.contains(x) ==> m.dom().contains(x),
        forall|x: u32, c: u32|
            s.contains(x) && #[trigger] m[x].child_ids().contains(c) ==> s.contains(c),
        path_ok(m, p),
        p.len() >= 2,
        p.first() == root,
    ensures
        s.contains(p.last()),
    decreases p.len(),
{
    if p.len() == 2 {
        assert(m[root].child_ids().contains(p[1]));
    } else {
        let p0 = p.drop_last();
        assert forall|i: int| 0 <= i < p0.len() - 1 implies m.dom().contains(#[trigger] p0[i])
            && m[p0[i]].child_ids().contains(p0[i + 1]) by {
            assert(p0[i] == p[i]);
            assert(p0[i + 1] == p[i + 1]);
        }
        lemma_path_tail_in_closed(m, root, s, p0);
        assert(m[p[p.len() - 2]].child_ids().contains(p.last()));
        assert(p0.last() == p[p.len() - 2]);
    }
}

/// In a well-formed forest, the parent of a descendant of `root` is `root`
/// itself or again a descendant of `root`.
pub proof fn lemma_parent_of_descendant(m: Map<u32, Goal>, root: u32, k: u32, c: u32)
    requires
        forest_wf(m),
        reaches(m, root, c),
        m.dom().contains(k),
        m[k].child_ids().contains(c),
    ensures
        k == root || reaches(m, root, k),
{
    reveal(reaches);
    let p = choose|p: Seq<u32>|
        #[trigger] path_ok(m, p) && p.len() >= 2 && p.first() == root && p.last() == c;
    let q = p[p.len() - 2];
    assert(m.dom().contains(q) && m[q].child_ids().contains(c));
    assert(q == k);
    if p.len() == 2 {
        assert(q == root);
    } else {
        let p0 = p.drop_last();
        assert forall|i: int| 0 <= i < p0.len() - 1 implies m.dom().contains(#[trigger] p0[i])
            && m[p0[i]].child_ids().contains(p0[i + 1]) by {
            assert(p0[i] == p[i]);
            assert(p0[i + 1] == p[i + 1]);
        }
        assert(path_ok(m, p0));
        assert(p0.len() >= 2 && p0.first() == root && p0.last() == q);
        assert(reaches(m, root, q));
    }
}

/// `c` appears in `g.children` exactly when its raw id appears in
/// `g.child_ids()`.
pub proof fn lemma_child_ids_contains(g: Goal, x: u32)
    ensures
        g.child_ids().contains(x) <==> g.children@.contains(GoalId(x)),
{
    if g.child_ids().contains(x) {
        let i = choose|i: int| 0 <= i < g.child_ids().len() && g.child_ids()[i] == x;
        assert(g.children@[i].0 == x);
        assert(g.children@[i] == GoalId(x));
    }
    if g.children@.contains(GoalId(x)) {
        let i = choose|i: int| 0 <= i < g.children@.len() && g.children@[i] == GoalId(x);
        assert(g.child_ids()[i] == x);
    }
}

/// Scan the whole map for a goal whose children list holds `goal_id`.  The
/// scan is linear in the number of goals; trees are expected to stay small.
pub fn get_goal_parent_id(goals: &IdMap<Goal>, goal_id: GoalId) -> (r: Option<GoalId>)
    requires
        goals.wf(),
    ensures
        match r {
            Some(p) => goals@.contains_key(p.0) && goals@[p.0].child_ids().contains(goal_id.0),
            None => forall|k: u32|
                #[trigger] goals@.contains_key(k) ==> !goals@[k].child_ids().contains(goal_id.0),
        },
{
    proof {
        goals.lemma_view();
    }
    let n = goals.len();
    let mut i: usize = 0;
    while i < n
        invariant
            goals.wf(),
            n == goals.entry_seq().len(),
            i <= n,
            forall|j: int|
                0 <= j < i ==> !(#[trigger] goals.entry_seq()[j].1.child_ids().contains(
                    goal_id.0,
                )),
        decreases n - i,
    {
        let g = goals.value_at(i);
        if g.has_child(goal_id) {
            let p = GoalId(goals.key_at(i));
            proof {
                lemma_child_ids_contains(*g, goal_id.0);
            }
            return Some(p);
        }
        proof {
            lemma_child_ids_contains(*g, goal_id.0);
        }
        i = i + 1;
    }
    proof {
        goals.lemma_view();
        assert forall|k: u32| #[trigger] goals@.contains_key(k) implies !goals@[k].child_ids().contains(goal_id.0) by {
            let j = choose|j: int| 0 <= j < goals.key_seq().len() && goals.key_seq()[j] == k;
            assert(goals.entry_seq()[j].0 == k);
            assert(goals@[k] == goals.entry_seq()[j].1);
        }
    }
    None
}

/// The roots: ids that appear in no goal's children list, in key order.
pub fn get_root_goals(goals: &IdMap<Goal>) -> (r: Vec<GoalId>)
    requires
        goals.wf(),
    ensures
        forall|i: int|
            0 <= i < r@.len() ==> goals@.contains_key(#[trigger] r@[i].0) && (forall|k: u32|
                #[trigger] goals@.contains_key(k) ==> !goals@[k].child_ids().contains(r@[i].0)),
        forall|x: u32|
            #[trigger] goals@.contains_key(x) && (forall|k: u32|
                #[trigger] goals@.contains_key(k) ==> !goals@[k].child_ids().contains(x))
                ==> r@.map_values(|g: GoalId| g.0).contains(x),
        forall|i: int, j: int| 0 <= i < j < r@.len() ==> #[trigger] r@[i].0 < #[trigger] r@[j].0,
{
    proof {
        goals.lemma_view();
    }
    let n = goals.len();
    let mut roots: Vec<GoalId> = Vec::new();
    let mut i: usize = 0;
    while i < n
        invariant
            goals.wf(),
            n == goals.entry_seq().len(),
            i <= n,
            forall|t: int|
                0 <= t < roots@.len() ==> goals@.contains_key((#[trigger] roots@[t]).0) && (forall|
                    k: u32,
                |
                    #[trigger] goals@.contains_key(k) ==> !goals@[k].child_ids().contains(
                        roots@[t].0,
                    )),
            forall|j: int|
                0 <= j < i ==> ((forall|k: u32|
                    #[trigger] goals@.contains_key(k) ==> !goals@[k].child_ids().contains(
                        #[trigger] goals.entry_seq()[j].0,
                    )) ==> exists|t: int|
                    0 <= t < roots@.len() && (#[trigger] roots@[t]).0 == goals.entry_seq()[j].0),
            forall|t: int|
                0 <= t < roots@.len() ==> exists|j: int|
                    0 <= j < i && (#[trigger] roots@[t]).0 == goals.entry_seq()[j].0,
            forall|t: int, u: int|
                0 <= t < u < roots@.len() ==> (#[trigger] roots@[t]).0 < (#[trigger] roots@[u]).0,
        decreases n - i,
    {
        let id = GoalId(goals.key_at(i));
        match get_goal_parent_id(goals, id) {
            Some(_) => {
                i = i + 1;
            },
            None => {
                let ghost pre = roots@;
                roots.push(id);
                proof {
                    goals.lemma_view();
                    assert(roots@.drop_last() =~= pre);
                    assert forall|t: int, u: int|
                        0 <= t < u < roots@.len() implies (#[trigger] roots@[t]).0 < (
                    #[trigger] roots@[u]).0 by {
                        if u == roots@.len() - 1 {
                            let j = choose|j: int|
                                0 <= j < i && (#[trigger] roots@[t]).0 == goals.entry_seq()[j].0;
                            assert(goals.entry_seq()[j].0 < goals.entry_seq()[i as int].0);
                        }
                    }
                    assert forall|j: int|
                        0 <= j < i + 1 && (forall|k: u32|
                            #[trigger] goals@.contains_key(k) ==> !goals@[k].child_ids().contains(
                                #[trigger] goals.entry_seq()[j].0,
                            )) implies exists|t: int|
                        0 <= t < roots@.len() && (#[trigger] roots@[t]).0 == goals.entry_seq()[
                        j].0 by {
                        if j < i {
                            let t = choose|t: int|
                                0 <= t < pre.len() && (#[trigger] pre[t]).0 == goals.entry_seq()[
                                j].0;
                            assert((roots@[t]).0 == goals.entry_seq()[j].0);
                        } else {
                            assert((roots@[roots@.len() - 1]).0 == goals.entry_seq()[j].0);
                        }
                    }
                }
                i = i + 1;
            },
        }
    }
    proof {
        goals.lemma_view();
        assert forall|x: u32|
            #[trigger] goals@.contains_key(x) && (forall|k: u32|
                #[trigger] goals@.contains_key(k) ==> !goals@[k].child_ids().contains(x)) implies
            roots@.map_values(|g: GoalId| g.0).contains(x) by {
            let j = choose|j: int| 0 <= j < goals.key_seq().len() && goals.key_seq()[j] == x;
            assert(goals.entry_seq()[j].0 == x);
            let t = choose|t: int|
                0 <= t < roots@.len() && (#[trigger] roots@[t]).0 == goals.entry_seq()[j].0;
            assert(roots@.map_values(|g: GoalId| g.0)[t] == x);
        }
    }
    roots
}

/// An empty-children snapshot node for one goal, metrics zeroed.
pub fn populated_goal_traversal_template(
    goal_id: GoalId,
    goal: &Goal,
    parent_goal_id: Option<GoalId>,
) -> (r: PopulatedGoal)
    ensures
        r.id == goal_id,
        r.parent_goal_id == parent_goal_id,
        r.name@ == goal.name@,
        r.effort_to_date == goal.effort_to_date,
        r.effort_to_complete == goal.effort_to_complete,
        r.children@.len() == 0,
        r.max_child_depth == 0,
        r.max_child_layer_width == 0,
{
    PopulatedGoal {
        id: goal_id,
        parent_goal_id,
        name: goal.name.clone(),
        effort_to_date: goal.effort_to_date,
        effort_to_complete: goal.effort_to_complete,
        children: Vec::new(),
        max_child_depth: 0,
        max_child_layer_width: 0,
    }
}

/// Pushing onto a sequence inserts into the set it describes.
pub(crate) proof fn lemma_to_set_push(s: Seq<u32>, a: u32)
    ensures
        s.push(a).to_set() == s.to_set().insert(a),
{
    let s2 = s.push(a);
    assert forall|x: u32| #[trigger] s2.to_set().contains(x) implies s.to_set().insert(a).contains(
        x,
    ) by {
        let j = choose|j: int| 0 <= j < s2.len() && s2[j] == x;
        if j < s.len() {
            assert(s[j] == x);
        }
    }
    assert forall|x: u32| #[trigger] s.to_set().insert(a).contains(x) implies s2.to_set().contains(
        x,
    ) by {
        if x == a {
            assert(s2[s2.len() - 1] == x);
        } else {
            let j = choose|j: int| 0 <= j < s.len() && s[j] == x;
            assert(s2[j] == x);
        }
    }
    assert(s2.to_set() =~= s.to_set().insert(a));
}

/// Visit the subtree below `goal_id` iteratively, depth first, with an
/// explicit work stack.  For every visited child the visitor receives the
/// parent's id, the parent's accumulator, the child's id and the child goal,
/// and produces the child's accumulator.  The root itself is not visited.
/// Returns the set of all visited descendant ids, or nothing if `goal_id` is
/// not in the map.
#[verifier::rlimit(100)]
pub fn visit_goal_child_tree<V, VF: Fn(GoalId, &V, GoalId, &Goal) -> V>(
    goals: &IdMap<Goal>,
    goal_id: GoalId,
    goal_visitor: &VF,
    root_visitor_data: V,
) -> (r: Option<IdSet>)
    requires
        goals.wf(),
        forest_wf(goals@),
        forall|a: GoalId, b: V, c: GoalId, d: Goal|
            call_requires(*goal_visitor, (a, &b, c, &d)),
    ensures
        match r {
            Some(s) => goals@.contains_key(goal_id.0) && s.wf() && s@ == descendants(
                goals@,
                goal_id.0,
            ),
            None => !goals@.contains_key(goal_id.0),
        },
{
    let ghost m = goals@;
    let root = goal_id.0;
    if !goals.contains_key(root) {
        return None;
    }
    proof {
        goals.lemma_view();
    }
    let mut visited = IdSet::new();
    let mut stack: Vec<(GoalId, V)> = Vec::new();
    stack.push((goal_id, root_visitor_data));
    let ghost mut expanded: Set<u32> = Set::empty();
    let ghost mut pending: Set<u32> = Set::empty().insert(root);
    let ghost mut owner: Map<u32, u32> = Map::empty();
    while stack.len() > 0
        invariant
            goals.wf(),
            m == goals@,
            forest_wf(m),
            m.contains_key(root),
            m.dom().finite(),
            visited.wf(),
            forall|a: GoalId, b: V, c: GoalId, d: Goal|
                call_requires(*goal_visitor, (a, &b, c, &d)),
            forall|x: u32|
                #[trigger] visited@.contains(x) ==> reaches(m, root, x) && m.dom().contains(x),
            forall|t: int|
                0 <= t < stack@.len() ==> m.dom().contains((#[trigger] stack@[t]).0.0) && (
                stack@[t].0.0 == root || visited@.contains(stack@[t].0.0)),
            forall|t: int, u: int|
                0 <= t < u < stack@.len() ==> (#[trigger] stack@[t]).0.0 != (
                #[trigger] stack@[u]).0.0,
            forall|t: int| 0 <= t < stack@.len() ==> pending.contains((#[trigger] stack@[t]).0.0),
            pending.finite(),
            pending.len() == stack@.len(),
            forall|x: u32| #[trigger] pending.contains(x) ==> !expanded.contains(x),
            forall|x: u32| #[trigger] pending.contains(x) ==> x == root || visited@.contains(x),
            forall|x: u32| #[trigger] expanded.contains(x) ==> x == root || visited@.contains(x),
            expanded.contains(root) || pending.contains(root),
            forall|x: u32|
                #[trigger] visited@.contains(x) ==> expanded.contains(x) || pending.contains(x),
            forall|x: u32|
                #[trigger] expanded.contains(x) ==> m.dom().contains(x) && (forall|c: u32|
                    #[trigger] m[x].child_ids().contains(c) ==> visited@.contains(c)),
            forall|x: u32|
                #[trigger] visited@.contains(x) ==> owner.dom().contains(x) && expanded.contains(
                    owner[x],
                ) && m.dom().contains(owner[x]) && m[owner[x]].child_ids().contains(x),
            visited@.len() == visited.item_seq().len(),
            visited@.finite(),
            visited@.subset_of(m.dom()),
            visited@.len() <= m.dom().len(),
        decreases m.dom().len() - visited@.len(), stack@.len(),
    {
        let ghost pre_visited = visited@;
        let ghost pre_stack_with_cur = stack@;
        let ghost pre_expanded = expanded;
        let ghost pre_owner = owner;
        let (cur, cur_data) = stack.pop().unwrap();
        let ghost pre_stack = stack@;
        proof {
            assert(pre_stack_with_cur[pre_stack_with_cur.len() - 1].0.0 == cur.0);
            assert(pending.contains(cur.0));
            assert(!expanded.contains(cur.0));
            assert(cur.0 == root || visited@.contains(cur.0));
            pending = pending.remove(cur.0);
            expanded = expanded.insert(cur.0);
            assert forall|t: int| 0 <= t < stack@.len() implies pending.contains(
                (#[trigger] stack@[t]).0.0,
            ) by {
                assert(stack@[t] == pre_stack_with_cur[t]);
                assert(pre_stack_with_cur[t].0.0 != cur.0);
            }
        }
        let cur_goal = goals.get(cur.0).unwrap();
        let n = cur_goal.children.len();
        let ghost kids = cur_goal.child_ids();
        let mut i: usize = 0;
        while i < n
            invariant
                goals.wf(),
                m == goals@,
                forest_wf(m),
                m.contains_key(root),
                m.dom().finite(),
                visited.wf(),
                forall|a: GoalId, b: V, c: GoalId, d: Goal|
                    call_requires(*goal_visitor, (a, &b, c, &d)),
                m.dom().contains(cur.0),
                *cur_goal == m[cur.0],
                n == cur_goal.children@.len(),
                kids == cur_goal.child_ids(),
                i <= n,
                cur.0 == root || reaches(m, root, cur.0),
                expanded == pre_expanded.insert(cur.0),
                !pre_expanded.contains(cur.0),
                visited@ == pre_visited.union(kids.take(i as int).to_set()),
                forall|x: u32|
                    #[trigger] pre_visited.contains(x) ==> pre_owner.dom().contains(x)
                        && pre_expanded.contains(pre_owner[x]) && m.dom().contains(pre_owner[x])
                        && m[pre_owner[x]].child_ids().contains(x),
                forall|x: u32|
                    #[trigger] visited@.contains(x) ==> reaches(m, root, x) && m.dom().contains(x),
                forall|t: int|
                    0 <= t < stack@.len() ==> m.dom().contains((#[trigger] stack@[t]).0.0) && (
                    stack@[t].0.0 == root || visited@.contains(stack@[t].0.0)),
                forall|t: int, u: int|
                    0 <= t < u < stack@.len() ==> (#[trigger] stack@[t]).0.0 != (
                    #[trigger] stack@[u]).0.0,
                forall|t: int| 0 <= t < stack@.len() ==> pending.contains(
                    (#[trigger] stack@[t]).0.0,
                ),
                pending.finite(),
                pending.len() == stack@.len(),
                forall|x: u32| #[trigger] pending.contains(x) ==> !expanded.contains(x),
                forall|x: u32|
                    #[trigger] pending.contains(x) ==> x == root || visited@.contains(x),
                forall|x: u32|
                    #[trigger] expanded.contains(x) ==> x == root || visited@.contains(x) || x
                        == cur.0,
                expanded.contains(root) || pending.contains(root),
                forall|x: u32|
                    #[trigger] visited@.contains(x) ==> expanded.contains(x) || pending.contains(
                        x,
                    ),
                forall|x: u32|
                    #[trigger] expanded.contains(x) && x != cur.0 ==> m.dom().contains(x) && (
                    forall|c: u32| #[trigger] m[x].child_ids().contains(c) ==> visited@.contains(c)),
                forall|j: int| 0 <= j < i ==> visited@.contains(#[trigger] kids[j]),
                forall|x: u32|
                    #[trigger] visited@.contains(x) ==> owner.dom().contains(x)
                        && expanded.contains(owner[x]) && m.dom().contains(owner[x])
                        && m[owner[x]].child_ids().contains(x),
                forall|x: u32| #[trigger] pre_visited.contains(x) ==> owner[x] == pre_owner[x]
                    && owner.dom().contains(x),
                visited@.len() == visited.item_seq().len(),
                visited@.len() == pre_visited.len() + i,
                visited@.finite(),
                visited@.subset_of(m.dom()),
                stack@.len() == pre_stack.len() + i,
            decreases n - i,
        {
            let child_id = cur_goal.children[i];
            proof {
                assert(kids[i as int] == child_id.0);
                assert(m.dom().contains(kids[i as int]) && kids[i as int] > cur.0);
                assert(m[cur.0].child_ids().contains(child_id.0));
                if cur.0 != root {
                    lemma_reaches_in_dom(m, root, cur.0);
                }
                assert(child_id.0 > root);
                // The child cannot have been seen before: it has a unique
                // parent, and that parent is only being expanded now.
                if visited@.contains(child_id.0) {
                    if pre_visited.contains(child_id.0) {
                        let e = pre_owner[child_id.0];
                        assert(pre_expanded.contains(e));
                        assert(m[e].child_ids().contains(child_id.0));
                        assert(e == cur.0);
                        assert(false);
                    } else {
                        assert(kids.take(i as int).to_set().contains(child_id.0));
                        let j = choose|j: int|
                            0 <= j < kids.take(i as int).len() && kids.take(i as int)[j]
                                == child_id.0;
                        assert(kids[j] == child_id.0);
                        assert(m[cur.0].child_ids().no_duplicates());
                        assert(false);
                    }
                }
                if cur.0 == root {
                    lemma_reaches_child(m, cur.0, child_id.0);
                } else {
                    lemma_reaches_extend(m, root, cur.0, child_id.0);
                }
            }
            let child = goals.get(child_id.0).unwrap();
            let child_data = goal_visitor(cur, &cur_data, child_id, child);
            let ghost mid_visited = visited@;
            let ghost mid_stack = stack@;
            visited.insert(child_id.0);
            stack.push((child_id, child_data));
            proof {
                assert(visited@ == mid_visited.insert(child_id.0));
                assert(stack@ == mid_stack.push((child_id, child_data)));
                assert(!pending.contains(child_id.0));
                pending = pending.insert(child_id.0);
                owner = owner.insert(child_id.0, cur.0);
                lemma_len_subset(visited@, m.dom());
                lemma_to_set_push(kids.take(i as int), kids[i as int]);
                assert(kids.take(i as int + 1) == kids.take(i as int).push(kids[i as int]));
                assert(visited@ =~= pre_visited.union(kids.take(i as int + 1).to_set()));
                assert(stack@[stack@.len() - 1].0.0 == child_id.0);
            }
            i = i + 1;
        }
        proof {
            // Re-establish the outer invariants after this expansion.
            assert forall|x: u32| #[trigger] expanded.contains(x) implies m.dom().contains(x) && (
            forall|c: u32| #[trigger] m[x].child_ids().contains(c) ==> visited@.contains(c)) by {
                if x == cur.0 {
                    assert forall|c: u32| #[trigger] m[x].child_ids().contains(c) implies
                        visited@.contains(c) by {
                        let j = choose|j: int|
                            0 <= j < m[x].child_ids().len() && m[x].child_ids()[j] == c;
                        assert(kids[j] == c);
                    }
                }
            }
            lemma_len_subset(visited@, m.dom());
            if n == 0 {
                assert(visited@.len() == pre_visited.len());
                assert(stack@.len() == pre_stack_with_cur.len() - 1);
            } else {
                assert(visited@.len() > pre_visited.len());
            }
        }
    }
    proof {
        // The stack is empty, so nothing is pending, everything pushed was
        // expanded, and the visited set is closed under children: it holds
        // every descendant.
        assert(pending.len() == 0);
        assert(pending =~= Set::<u32>::empty());
        assert(expanded.contains(root));
        assert forall|c: u32| #[trigger] m[root].child_ids().contains(c) implies visited@.contains(
            c,
        ) by {}
        assert forall|x: u32, c: u32|
            visited@.contains(x) && #[trigger] m[x].child_ids().contains(c) implies
            visited@.contains(c) by {
            assert(expanded.contains(x));
        }
        lemma_closed_set_contains_descendants(m, root, visited@);
        assert forall|x: u32| #[trigger] descendants(m, root).contains(x) implies visited@.contains(
            x,
        ) by {
            assert(reaches(m, root, x));
        }
        assert(visited@ =~= descendants(m, root));
    }
    Some(visited)
}


/// Number of nodes in a populated tree.
pub open spec fn pg_count(t: PopulatedGoal) -> nat
    decreases t,
{
    1 + pg_count_seq(t.children@)
}

pub open spec fn pg_count_seq(s: Seq<PopulatedGoal>) -> nat
    decreases s,
{
    if s.len() == 0 {
        0
    } else {
        pg_count_seq(s.drop_last()) + pg_count(s.last())
    }
}

/// Each element counts no more than the whole sequence.
proof fn lemma_pg_count_seq_elem(s: Seq<PopulatedGoal>, i: int)
    requires
        0 <= i < s.len(),
    ensures
        pg_count(s[i]) <= pg_count_seq(s),
        pg_count_seq(s) >= 0,
    decreases s.len(),
{
    if i == s.len() - 1 {
        lemma_pg_count_seq_nonneg(s.drop_last());
    } else {
        lemma_pg_count_seq_elem(s.drop_last(), i);
        assert(s.drop_last()[i] == s[i]);
    }
}

proof fn lemma_pg_count_seq_nonneg(s: Seq<PopulatedGoal>)
    ensures
        pg_count_seq(s) >= 0,
    decreases s.len(),
{
    if s.len() > 0 {
        lemma_pg_count_seq_nonneg(s.drop_last());
    }
}

proof fn lemma_pg_count_seq_push(s: Seq<PopulatedGoal>, c: PopulatedGoal)
    ensures
        pg_count_seq(s.push(c)) == pg_count_seq(s) + pg_count(c),
{
    assert(s.push(c).drop_last() =~= s);
    assert(s.push(c).last() == c);
}

proof fn lemma_pg_count_seq_update(s: Seq<PopulatedGoal>, i: int, c: PopulatedGoal)
    requires
        0 <= i < s.len(),
    ensures
        pg_count_seq(s.update(i, c)) == pg_count_seq(s) - pg_count(s[i]) + pg_count(c),
    decreases s.len(),
{
    let s2 = s.update(i, c);
    if i == s.len() - 1 {
        assert(s2.drop_last() =~= s.drop_last());
        assert(s2.last() == c);
    } else {
        assert(s2.last() == s.last());
        assert(s2.drop_last() =~= s.drop_last().update(i, c));
        lemma_pg_count_seq_update(s.drop_last(), i, c);
        assert(s.drop_last()[i] == s[i]);
    }
}

/// Whether `p`, read from position `i` on, is a valid child-index path in `t`.
pub open spec fn pg_path_valid(t: PopulatedGoal, p: Seq<usize>, i: int) -> bool
    decreases p.len() - i,
{
    i >= p.len() || (i >= 0 && (p[i] as int) < t.children@.len() && pg_path_valid(
        t.children@[p[i] as int],
        p,
        i + 1,
    ))
}

/// The node reached by following `p` from position `i` on.
pub open spec fn pg_node_at(t: PopulatedGoal, p: Seq<usize>, i: int) -> PopulatedGoal
    decreases p.len() - i,
{
    if i >= p.len() || i < 0 || (p[i] as int) >= t.children@.len() {
        t
    } else {
        pg_node_at(t.children@[p[i] as int], p, i + 1)
    }
}

/// The non-children fields of two nodes agree.
pub open spec fn pg_fields_eq(a: PopulatedGoal, b: PopulatedGoal) -> bool {
    a.id == b.id && a.parent_goal_id == b.parent_goal_id && a.name@ == b.name@
        && a.effort_to_date == b.effort_to_date && a.effort_to_complete == b.effort_to_complete
}

/// Two trees have the same structure and node identities; only the layout
/// metric fields may differ.
pub open spec fn pg_same_shape(a: PopulatedGoal, b: PopulatedGoal) -> bool
    decreases a,
{
    pg_fields_eq(a, b) && a.children@.len() == b.children@.len() && forall|j: int|
        0 <= j < a.children@.len() ==> pg_same_shape(#[trigger] a.children@[j], b.children@[j])
}

/// Same shape keeps paths valid and node identities in place.
proof fn lemma_same_shape_paths(a: PopulatedGoal, b: PopulatedGoal, q: Seq<usize>, i: int)
    requires
        pg_same_shape(a, b),
        pg_path_valid(a, q, i),
        0 <= i <= q.len(),
    ensures
        pg_path_valid(b, q, i),
        pg_fields_eq(pg_node_at(b, q, i), pg_node_at(a, q, i)),
        pg_node_at(b, q, i).children@.len() == pg_node_at(a, q, i).children@.len(),
        pg_same_shape(pg_node_at(a, q, i), pg_node_at(b, q, i)),
    decreases q.len() - i,
{
    if i >= q.len() {
    } else {
        lemma_same_shape_paths(a.children@[q[i] as int], b.children@[q[i] as int], q, i + 1);
    }
}

/// Same shape keeps the node count.
proof fn lemma_same_shape_count(a: PopulatedGoal, b: PopulatedGoal)
    requires
        pg_same_shape(a, b),
    ensures
        pg_count(a) == pg_count(b),
    decreases a,
{
    lemma_same_shape_count_seq(a.children@, b.children@);
}

proof fn lemma_same_shape_count_seq(a: Seq<PopulatedGoal>, b: Seq<PopulatedGoal>)
    requires
        a.len() == b.len(),
        forall|j: int| 0 <= j < a.len() ==> pg_same_shape(#[trigger] a[j], b[j]),
    ensures
        pg_count_seq(a) == pg_count_seq(b),
    decreases a,
{
    if a.len() > 0 {
        assert(forall|j: int|
            0 <= j < a.drop_last().len() ==> pg_same_shape(
                #[trigger] a.drop_last()[j],
                b.drop_last()[j],
            ));
        lemma_same_shape_count_seq(a.drop_last(), b.drop_last());
        lemma_same_shape_count(a.last(), b.last());
    }
}

proof fn lemma_same_shape_refl(t: PopulatedGoal)
    ensures
        pg_same_shape(t, t),
    decreases t,
{
    lemma_same_shape_refl_seq(t.children@);
}

proof fn lemma_same_shape_refl_seq(s: Seq<PopulatedGoal>)
    ensures
        forall|j: int| 0 <= j < s.len() ==> pg_same_shape(#[trigger] s[j], s[j]),
    decreases s,
{
    assert forall|j: int| 0 <= j < s.len() implies pg_same_shape(#[trigger] s[j], s[j]) by {
        lemma_same_shape_refl(s[j]);
    }
}

/// Transitivity of shape preservation.
proof fn lemma_same_shape_trans(a: PopulatedGoal, b: PopulatedGoal, c: PopulatedGoal)
    requires
        pg_same_shape(a, b),
        pg_same_shape(b, c),
    ensures
        pg_same_shape(a, c),
    decreases a,
{
    assert forall|j: int| 0 <= j < a.children@.len() implies pg_same_shape(
        #[trigger] a.children@[j],
        c.children@[j],
    ) by {
        lemma_same_shape_trans(a.children@[j], b.children@[j], c.children@[j]);
    }
}

/// Walk the whole populated tree below `t` (whose own depth is `depth`) and
/// give every strictly deeper node its `max_child_layer_width` from the
/// propagated widths list, falling back to its own child count where the
/// list has no entry for its depth.  Shape and depth fields stay; so does
/// `t`'s own width.
fn assign_widths(t: &mut PopulatedGoal, depth: usize, widths: &Vec<usize>)
    requires
        depth + pg_leaf_height(*old(t)) < usize::MAX,
    ensures
        pg_same_shape(*old(t), *final(t)),
        pg_depths_eq(*old(t), *final(t)),
        final(t).max_child_layer_width == old(t).max_child_layer_width,
        pg_widths_from(*final(t), depth as nat, widths@),
    decreases pg_count(*old(t)),
{
    let ghost orig = *old(t);
    proof {
        lemma_same_shape_refl(orig);
        lemma_same_shape_refl_seq(orig.children@);
        lemma_depths_eq_refl_seq(orig.children@);
    }
    let n = t.children.len();
    let mut j: usize = 0;
    while j < n
        invariant
            orig == *old(t),
            pg_count(*t) == pg_count(orig),
            depth + pg_leaf_height(orig) < usize::MAX,
            n == t.children@.len(),
            n == orig.children@.len(),
            j <= n,
            t.id == orig.id,
            t.parent_goal_id == orig.parent_goal_id,
            t.name == orig.name,
            t.effort_to_date == orig.effort_to_date,
            t.effort_to_complete == orig.effort_to_complete,
            t.max_child_depth == orig.max_child_depth,
            t.max_child_layer_width == orig.max_child_layer_width,
            forall|u: int|
                0 <= u < n ==> pg_same_shape(#[trigger] orig.children@[u], t.children@[u])
                    && pg_depths_eq(orig.children@[u], t.children@[u]),
            forall|u: int|
                0 <= u < j ==> {
                    let c = #[trigger] t.children@[u];
                    &&& (c.max_child_layer_width as nat) == (if depth + 1 < widths@.len() {
                        widths@[depth as int + 1] as nat
                    } else {
                        c.children@.len()
                    })
                    &&& pg_widths_from(c, depth as nat + 1, widths@)
                },
        decreases n - j,
    {
        let ghost a = *t;
        let mut kid = t.children.remove(j);
        let ghost kid0 = kid;
        proof {
            lemma_pg_count_seq_elem(a.children@, j as int);
            assert(pg_count(kid0) < pg_count(a));
            lemma_same_shape_lh(orig.children@[j as int], kid0);
            lemma_lh_seq_ge(orig.children@, j as int);
            assert(pg_leaf_height(orig) >= 1 + pg_leaf_height(kid0));
        }
        let w = if depth + 1 < widths.len() {
            widths[depth + 1]
        } else {
            kid.children.len()
        };
        let ghost mid = kid;
        kid.max_child_layer_width = w;
        proof {
            assert(pg_same_shape(mid, kid) && pg_depths_eq(mid, kid)) by {
                lemma_same_shape_refl_seq(mid.children@);
                lemma_depths_eq_refl_seq(mid.children@);
            }
            assert(pg_count(kid) == pg_count(kid0));
            assert(pg_count(kid) < pg_count(*old(t)));
        }
        let ghost pre_rec = kid;
        assign_widths(&mut kid, depth + 1, widths);
        t.children.insert(j, kid);
        proof {
            assert(t.children@ =~= a.children@.update(j as int, t.children@[j as int]));
            assert(pg_same_shape(kid0, t.children@[j as int]) && pg_depths_eq(
                kid0,
                t.children@[j as int],
            )) by {
                assert(pg_same_shape(kid0, pre_rec) && pg_depths_eq(kid0, pre_rec)) by {
                    lemma_same_shape_refl_seq(kid0.children@);
                    lemma_depths_eq_refl_seq(kid0.children@);
                }
                lemma_same_shape_trans(kid0, pre_rec, t.children@[j as int]);
                lemma_depths_eq_trans(kid0, pre_rec, t.children@[j as int]);
            }
            assert forall|u: int| 0 <= u < n implies pg_same_shape(
                #[trigger] orig.children@[u],
                t.children@[u],
            ) && pg_depths_eq(orig.children@[u], t.children@[u]) by {
                if u == j as int {
                    lemma_same_shape_trans(orig.children@[u], kid0, t.children@[u]);
                    lemma_depths_eq_trans(orig.children@[u], kid0, t.children@[u]);
                }
            }
            assert((t.children@[j as int].max_child_layer_width as nat) == (if depth + 1
                < widths@.len() {
                widths@[depth as int + 1] as nat
            } else {
                t.children@[j as int].children@.len()
            }));
            lemma_same_shape_count_seq(orig.children@, t.children@);
        }
        j = j + 1;
    }
}

/// Depth-field agreement is reflexive and transitive.
proof fn lemma_depths_eq_refl_seq(s: Seq<PopulatedGoal>)
    ensures
        forall|j: int| 0 <= j < s.len() ==> pg_depths_eq(#[trigger] s[j], s[j]),
    decreases s,
{
    assert forall|j: int| 0 <= j < s.len() implies pg_depths_eq(#[trigger] s[j], s[j]) by {
        lemma_depths_eq_refl_seq(s[j].children@);
    }
}

proof fn lemma_depths_eq_trans(a: PopulatedGoal, b: PopulatedGoal, c: PopulatedGoal)
    requires
        pg_depths_eq(a, b),
        pg_depths_eq(b, c),
    ensures
        pg_depths_eq(a, c),
    decreases a,
{
    assert forall|j: int| 0 <= j < a.children@.len() implies pg_depths_eq(
        #[trigger] a.children@[j],
        c.children@[j],
    ) by {
        lemma_depths_eq_trans(a.children@[j], b.children@[j], c.children@[j]);
    }
}

/// Same shape gives the same maximum layer counts from any depth on.
proof fn lemma_same_shape_mcf(a: PopulatedGoal, b: PopulatedGoal, k: nat)
    requires
        pg_same_shape(a, b),
    ensures
        max_count_from(a, k) == max_count_from(b, k),
    decreases pg_leaf_height(a) + 1 - k,
{
    lemma_same_shape_lh(a, b);
    if k <= pg_leaf_height(a) {
        lemma_same_shape_cad(a, b, k);
        lemma_same_shape_mcf(a, b, k + 1);
    }
}

/// A propagated widths list that carries the maximum layer counts turns the
/// per-depth assignment into the width law.
proof fn lemma_widths_from_law(root: PopulatedGoal, t: PopulatedGoal, k: nat, ws: Seq<usize>)
    requires
        pg_widths_from(t, k, ws),
        ws.len() == pg_leaf_height(root),
        forall|i: int|
            0 <= i < ws.len() ==> ((#[trigger] ws[i]) as nat) == max_count_from(
                root,
                (i + 1) as nat,
            ),
    ensures
        pg_widths_ok_below(root, t, k),
    decreases t,
{
    assert forall|j: int| 0 <= j < t.children@.len() implies {
        let c = #[trigger] t.children@[j];
        &&& (c.max_child_layer_width as nat) == (if k + 1 < pg_leaf_height(root) {
            max_count_from(root, k + 2)
        } else {
            c.children@.len()
        })
        &&& pg_widths_ok_below(root, c, k + 1)
    } by {
        lemma_widths_from_law(root, t.children@[j], k + 1, ws);
        if k + 1 < ws.len() {
            assert(ws[k as int + 1] as nat == max_count_from(root, (k + 2) as nat));
        }
    }
}

/// A tree with leaf height 0 has no children.
proof fn lemma_lh_zero_no_children(t: PopulatedGoal)
    ensures
        pg_leaf_height(t) == 0 ==> t.children@.len() == 0,
{
    if t.children@.len() > 0 {
        lemma_lh_seq_ge(t.children@, 0);
    }
}

/// The populated tree `t` mirrors the flat map exactly: every node's fields
/// copy its goal's, its children appear in stored order, and every child
/// carries its parent's id.
pub open spec fn pg_matches(m: Map<u32, Goal>, t: PopulatedGoal) -> bool
    decreases t,
{
    &&& m.dom().contains(t.id.0)
    &&& t.name@ == m[t.id.0].name@
    &&& t.effort_to_date == m[t.id.0].effort_to_date
    &&& t.effort_to_complete == m[t.id.0].effort_to_complete
    &&& t.children@.len() == m[t.id.0].child_ids().len()
    &&& forall|j: int|
        0 <= j < t.children@.len() ==> (#[trigger] t.children@[j]).id.0 == m[t.id.0].child_ids()[j]
            && t.children@[j].parent_goal_id == Some(t.id) && pg_matches(m, t.children@[j])
}

/// A tree under construction.  `pending` holds the child-index paths of the
/// nodes whose children are still to be filled in; every other node already
/// mirrors its goal's full children list.  `here` is the path of `t` itself.
pub open spec fn pg_partial(
    m: Map<u32, Goal>,
    t: PopulatedGoal,
    pending: Set<Seq<usize>>,
    here: Seq<usize>,
) -> bool
    decreases t,
{
    &&& m.dom().contains(t.id.0)
    &&& t.name@ == m[t.id.0].name@
    &&& t.effort_to_date == m[t.id.0].effort_to_date
    &&& t.effort_to_complete == m[t.id.0].effort_to_complete
    &&& if pending.contains(here) {
        t.children@.len() == 0
    } else {
        t.children@.len() == m[t.id.0].child_ids().len() && forall|j: int|
            0 <= j < t.children@.len() ==> (#[trigger] t.children@[j]).id.0 == m[t.id.0].child_ids()[j] && t.children@[j].parent_goal_id == Some(t.id) && pg_partial(
                m,
                t.children@[j],
                pending,
                here.push(j as usize),
            )
    }
}

/// Nodes of a partially built tree satisfy the same predicate at their own
/// path.
proof fn lemma_partial_at_path(
    m: Map<u32, Goal>,
    t: PopulatedGoal,
    pending: Set<Seq<usize>>,
    q: Seq<usize>,
    i: int,
)
    requires
        pg_partial(m, t, pending, q.take(i)),
        pg_path_valid(t, q, i),
        0 <= i <= q.len(),
    ensures
        pg_partial(m, pg_node_at(t, q, i), pending, q),
    decreases q.len() - i,
{
    if i >= q.len() {
        assert(q.take(i) =~= q);
    } else {
        assert(!pending.contains(q.take(i))) by {
            if pending.contains(q.take(i)) {
                assert(t.children@.len() == 0);
            }
        }
        assert(q.take(i).push(q[i]) =~= q.take(i + 1));
        lemma_partial_at_path(m, t.children@[q[i] as int], pending, q, i + 1);
    }
}

/// If two pending sets agree on every path extending `here`, they describe
/// the same partial trees at `here`.
proof fn lemma_partial_pending_agree(
    m: Map<u32, Goal>,
    t: PopulatedGoal,
    p1: Set<Seq<usize>>,
    p2: Set<Seq<usize>>,
    here: Seq<usize>,
)
    requires
        pg_partial(m, t, p1, here),
        forall|q: Seq<usize>|
            q.len() >= here.len() && #[trigger] q.take(here.len() as int) == here ==> (
            p1.contains(q) <==> p2.contains(q)),
    ensures
        pg_partial(m, t, p2, here),
    decreases t,
{
    assert(here.take(here.len() as int) =~= here);
    if !p1.contains(here) {
        assert forall|j: int| 0 <= j < t.children@.len() implies pg_partial(
            m,
            #[trigger] t.children@[j],
            p2,
            here.push(j as usize),
        ) by {
            let h2 = here.push(j as usize);
            assert forall|q: Seq<usize>|
                q.len() >= h2.len() && #[trigger] q.take(h2.len() as int) == h2 implies (
            p1.contains(q) <==> p2.contains(q)) by {
                assert(q.take(here.len() as int) =~= q.take(h2.len() as int).take(
                    here.len() as int,
                ));
                assert(h2.take(here.len() as int) =~= here);
            }
            lemma_partial_pending_agree(m, t.children@[j], p1, p2, h2);
        }
    }
}

/// With nothing pending, a partial mirror is a complete mirror.
proof fn lemma_partial_empty_matches(
    m: Map<u32, Goal>,
    t: PopulatedGoal,
    pending: Set<Seq<usize>>,
    here: Seq<usize>,
)
    requires
        pg_partial(m, t, pending, here),
        pending == Set::<Seq<usize>>::empty(),
    ensures
        pg_matches(m, t),
    decreases t,
{
    assert(!pending.contains(here));
    assert forall|j: int| 0 <= j < t.children@.len() implies pg_matches(
        m,
        #[trigger] t.children@[j],
    ) by {
        lemma_partial_empty_matches(m, t.children@[j], pending, here.push(j as usize));
    }
}

/// The pending set after expanding the node at `p` with `n` children: `p`
/// leaves, its children's paths come in.
pub open spec fn pending_after_expand(
    pending: Set<Seq<usize>>,
    p: Seq<usize>,
    n: int,
) -> Set<Seq<usize>> {
    Set::new(
        |q: Seq<usize>|
            (pending.contains(q) && q != p) || exists|j: int| 0 <= j < n && q == #[trigger] p.push(j as usize),
    )
}

proof fn lemma_pending_after_expand_card(pending: Set<Seq<usize>>, p: Seq<usize>, n: int)
    requires
        pending.finite(),
        pending.contains(p),
        0 <= n <= usize::MAX,
        forall|j: int| 0 <= j < n ==> !pending.contains(#[trigger] p.push(j as usize)),
    ensures
        pending_after_expand(pending, p, n).finite(),
        pending_after_expand(pending, p, n).len() == pending.len() - 1 + n,
    decreases n,
{
    if n == 0 {
        assert(pending_after_expand(pending, p, 0) =~= pending.remove(p));
    } else {
        lemma_pending_after_expand_card(pending, p, n - 1);
        let prev = pending_after_expand(pending, p, n - 1);
        let q = p.push((n - 1) as usize);
        assert(q.len() == p.len() + 1);
        assert(!prev.contains(q)) by {
            assert(!pending.contains(q));
            if exists|j: int| 0 <= j < n - 1 && q == #[trigger] p.push(j as usize) {
                let j = choose|j: int| 0 <= j < n - 1 && q == #[trigger] p.push(j as usize);
                assert(q[p.len() as int] == j as usize);
                assert(q[p.len() as int] == (n - 1) as usize);
                assert(j as usize == (n - 1) as usize);
                assert(0 <= j <= usize::MAX && 0 <= n - 1 <= usize::MAX);
                assert(j == n - 1);
                assert(false);
            }
        }
        assert(pending_after_expand(pending, p, n) =~= prev.insert(q)) by {
            assert forall|r: Seq<usize>|
                #[trigger] pending_after_expand(pending, p, n).contains(r) implies prev.insert(
                q,
            ).contains(r) by {
                if !(pending.contains(r) && r != p) {
                    let j = choose|j: int| 0 <= j < n && r == #[trigger] p.push(j as usize);
                    if j < n - 1 {
                        assert(prev.contains(r));
                    }
                }
            }
        }
    }
}

/// Expanding one pending node: appending exactly its goal's children as
/// fresh childless templates updates the pending set accordingly.
proof fn lemma_append_partial(
    m: Map<u32, Goal>,
    a: PopulatedGoal,
    b: PopulatedGoal,
    p: Seq<usize>,
    i: int,
    cs: Seq<PopulatedGoal>,
    pending: Set<Seq<usize>>,
    cur: u32,
)
    requires
        pg_partial(m, a, pending, p.take(i)),
        pg_appended_seq(a, b, p, i, cs),
        pg_path_valid(a, p, i),
        0 <= i <= p.len(),
        pending.contains(p),
        pg_node_at(a, p, i).id.0 == cur,
        m.dom().contains(cur),
        cs.len() == m[cur].child_ids().len(),
        forall|j: int|
            0 <= j < cs.len() ==> (#[trigger] cs[j]).id.0 == m[cur].child_ids()[j]
                && cs[j].parent_goal_id == Some(GoalId(cur)) && cs[j].children@.len() == 0
                && m.dom().contains(cs[j].id.0) && cs[j].name@ == m[cs[j].id.0].name@
                && cs[j].effort_to_date == m[cs[j].id.0].effort_to_date
                && cs[j].effort_to_complete == m[cs[j].id.0].effort_to_complete,
    ensures
        pg_partial(m, b, pending_after_expand(pending, p, cs.len() as int), p.take(i)),
    decreases p.len() - i,
{
    let p2 = pending_after_expand(pending, p, cs.len() as int);
    let here = p.take(i);
    if i >= p.len() {
        assert(here =~= p);
        assert(a.id.0 == cur);
        assert(a.children@.len() == 0) by {
            assert(pending.contains(here));
        }
        assert(b.children@ =~= cs);
        assert(!p2.contains(p)) by {
            if exists|j: int| 0 <= j < cs.len() && p == #[trigger] p.push(j as usize) {
                let j = choose|j: int| 0 <= j < cs.len() && p == #[trigger] p.push(j as usize);
                assert(p.push(j as usize).len() == p.len() + 1);
            }
        }
        assert forall|j: int| 0 <= j < b.children@.len() implies (#[trigger] b.children@[j]).id.0
            == m[b.id.0].child_ids()[j] && b.children@[j].parent_goal_id == Some(b.id)
            && pg_partial(m, b.children@[j], p2, p.push(j as usize)) by {
            assert(b.children@[j] == cs[j]);
            assert(b.id == a.id);
            assert(p2.contains(p.push(j as usize)));
        }
    } else {
        assert(!pending.contains(here)) by {
            if pending.contains(here) {
                assert(a.children@.len() == 0);
            }
        }
        assert(!p2.contains(here)) by {
            if exists|j: int| 0 <= j < cs.len() && here == #[trigger] p.push(j as usize) {
                let j = choose|j: int| 0 <= j < cs.len() && here == #[trigger] p.push(j as usize);
                assert(here.len() == p.len() + 1);
            }
        }
        assert(here.push(p[i]) =~= p.take(i + 1));
        lemma_append_partial(m, a.children@[p[i] as int], b.children@[p[i] as int], p, i + 1, cs, pending, cur);
        assert forall|j: int| 0 <= j < b.children@.len() implies (#[trigger] b.children@[j]).id.0
            == m[b.id.0].child_ids()[j] && b.children@[j].parent_goal_id == Some(b.id)
            && pg_partial(m, b.children@[j], p2, here.push(j as usize)) by {
            if j != p[i] as int {
                assert(b.children@[j] == a.children@[j]);
                assert(a.children.len() == a.children@.len());
                assert(0 <= j <= usize::MAX);
                assert((j as usize) as int == j);
                let h2 = here.push(j as usize);
                assert(pg_partial(m, a.children@[j], pending, h2));
                assert forall|q: Seq<usize>|
                    q.len() >= h2.len() && #[trigger] q.take(h2.len() as int) == h2 implies (
                pending.contains(q) <==> p2.contains(q)) by {
                    // Any extension of a sibling prefix differs from `p` and
                    // from every new child path at index `i`.
                    assert(q[i] == h2[i]);
                    assert(h2[i] == j as usize);
                    if q == p {
                        assert(p[i] == j as usize);
                        assert((p[i] as int) == j);
                        assert(false);
                    }
                    if exists|k: int| 0 <= k < cs.len() && q == #[trigger] p.push(k as usize) {
                        let k = choose|k: int| 0 <= k < cs.len() && q == #[trigger] p.push(k as usize);
                        assert(q[i] == p[i]);
                        assert(p[i] == j as usize);
                        assert(false);
                    }
                }
                lemma_partial_pending_agree(m, a.children@[j], pending, p2, h2);
            } else {
                assert(pg_appended_seq(a.children@[j], b.children@[j], p, i + 1, cs));
                assert(pg_fields_eq(a.children@[j], b.children@[j]));
                assert(here.push(j as usize) =~= p.take(i + 1));
                assert((j as usize) == p[i]);
            }
        }
    }
}

/// Shape-preserving rewrites keep a complete mirror complete.
proof fn lemma_same_shape_matches(m: Map<u32, Goal>, a: PopulatedGoal, b: PopulatedGoal)
    requires
        pg_matches(m, a),
        pg_same_shape(a, b),
    ensures
        pg_matches(m, b),
    decreases a,
{
    assert forall|j: int| 0 <= j < b.children@.len() implies (#[trigger] b.children@[j]).id.0 == m[b.id.0].child_ids()[j] && b.children@[j].parent_goal_id == Some(b.id) && pg_matches(
        m,
        b.children@[j],
    ) by {
        lemma_same_shape_matches(m, a.children@[j], b.children@[j]);
    }
}

/// `b` is `a` with the sequence `cs` appended to the children of the node at
/// `p[i..]`.
pub open spec fn pg_appended_seq(
    a: PopulatedGoal,
    b: PopulatedGoal,
    p: Seq<usize>,
    i: int,
    cs: Seq<PopulatedGoal>,
) -> bool
    decreases p.len() - i,
{
    if i >= p.len() {
        pg_fields_eq(a, b) && a.max_child_layer_width == b.max_child_layer_width
            && a.max_child_depth == b.max_child_depth && b.children@ == a.children@ + cs
    } else {
        pg_fields_eq(a, b) && a.max_child_layer_width == b.max_child_layer_width
            && a.max_child_depth == b.max_child_depth && i >= 0 && (p[i] as int)
            < a.children@.len() && b.children@.len() == a.children@.len() && (forall|j: int|
            0 <= j < a.children@.len() && j != p[i] as int ==> #[trigger] b.children@[j]
                == a.children@[j]) && pg_appended_seq(
            a.children@[p[i] as int],
            b.children@[p[i] as int],
            p,
            i + 1,
            cs,
        )
    }
}

proof fn lemma_appended_seq_count(
    a: PopulatedGoal,
    b: PopulatedGoal,
    p: Seq<usize>,
    i: int,
    cs: Seq<PopulatedGoal>,
)
    requires
        pg_appended_seq(a, b, p, i, cs),
    ensures
        pg_count(b) == pg_count(a) + pg_count_seq(cs),
    decreases p.len() - i,
{
    if i >= p.len() {
        lemma_pg_count_seq_concat(a.children@, cs);
    } else {
        lemma_appended_seq_count(a.children@[p[i] as int], b.children@[p[i] as int], p, i + 1, cs);
        assert(b.children@ =~= a.children@.update(p[i] as int, b.children@[p[i] as int]));
        lemma_pg_count_seq_update(a.children@, p[i] as int, b.children@[p[i] as int]);
    }
}

proof fn lemma_pg_count_seq_concat(s: Seq<PopulatedGoal>, cs: Seq<PopulatedGoal>)
    ensures
        pg_count_seq(s + cs) == pg_count_seq(s) + pg_count_seq(cs),
    decreases cs.len(),
{
    if cs.len() == 0 {
        assert(s + cs =~= s);
    } else {
        assert((s + cs).drop_last() =~= s + cs.drop_last());
        assert((s + cs).last() == cs.last());
        lemma_pg_count_seq_concat(s, cs.drop_last());
    }
}

/// After the append the path still leads to the same node, now carrying the
/// appended children at the end of its list.
proof fn lemma_appended_seq_at_path(
    a: PopulatedGoal,
    b: PopulatedGoal,
    p: Seq<usize>,
    i: int,
    cs: Seq<PopulatedGoal>,
)
    requires
        pg_appended_seq(a, b, p, i, cs),
        pg_path_valid(a, p, i),
        0 <= i <= p.len(),
    ensures
        pg_path_valid(b, p, i),
        pg_fields_eq(pg_node_at(b, p, i), pg_node_at(a, p, i)),
        pg_node_at(b, p, i).children@ == pg_node_at(a, p, i).children@ + cs,
    decreases p.len() - i,
{
    if i < p.len() {
        lemma_appended_seq_at_path(a.children@[p[i] as int], b.children@[p[i] as int], p, i + 1, cs);
    }
}

/// A valid path that diverges from the append path leads to an untouched
/// subtree.
proof fn lemma_appended_seq_elsewhere(
    a: PopulatedGoal,
    b: PopulatedGoal,
    p: Seq<usize>,
    cs: Seq<PopulatedGoal>,
    q: Seq<usize>,
    i: int,
)
    requires
        pg_appended_seq(a, b, p, i, cs),
        pg_path_valid(a, q, i),
        0 <= i <= p.len(),
        0 <= i <= q.len(),
        exists|d: int| i <= d < p.len() && d < q.len() && p[d] != q[d],
    ensures
        pg_path_valid(b, q, i),
        pg_node_at(b, q, i) == pg_node_at(a, q, i),
    decreases p.len() - i,
{
    let d = choose|d: int| i <= d < p.len() && d < q.len() && p[d] != q[d];
    if p[i] != q[i] {
        assert(b.children@[q[i] as int] == a.children@[q[i] as int]);
    } else {
        lemma_appended_seq_elsewhere(
            a.children@[p[i] as int],
            b.children@[p[i] as int],
            p,
            cs,
            q,
            i + 1,
        );
    }
}

/// Prefixes of a valid path are valid, and each proper prefix's end has
/// room for the next index.
pub proof fn lemma_valid_path_prefix(t: PopulatedGoal, q: Seq<usize>, i: int, k: int)
    requires
        0 <= i <= k <= q.len(),
        pg_path_valid(t, q, i),
    ensures
        pg_path_valid(t, q.take(k), i),
        k < q.len() ==> (q[k] as int) < pg_node_at(t, q.take(k), i).children@.len(),
    decreases k - i,
{
    if i < k {
        assert(q.take(k)[i] == q[i]);
        lemma_valid_path_prefix(t.children@[q[i] as int], q, i + 1, k);
    } else {
        if k < q.len() {
            assert(pg_node_at(t, q.take(k), i) == t);
        }
    }
}

/// Extending a valid path by an in-range child index stays valid and lands
/// on that child.
pub proof fn lemma_path_push(t: PopulatedGoal, p: Seq<usize>, i: int, idx: usize)
    requires
        0 <= i <= p.len(),
        pg_path_valid(t, p, i),
        (idx as int) < pg_node_at(t, p, i).children@.len(),
    ensures
        pg_path_valid(t, p.push(idx), i),
        pg_node_at(t, p.push(idx), i) == pg_node_at(t, p, i).children@[idx as int],
    decreases p.len() - i,
{
    let q = p.push(idx);
    if i >= p.len() {
        assert(q[i] == idx);
        assert(pg_node_at(t, p, i) == t);
        let child = t.children@[idx as int];
        assert(pg_path_valid(child, q, i + 1));
        assert(pg_node_at(child, q, i + 1) == child);
        assert(pg_path_valid(t, q, i));
        assert(pg_node_at(t, q, i) == child);
    } else {
        assert(q[i] == p[i]);
        lemma_path_push(t.children@[p[i] as int], p, i + 1, idx);
    }
}

/// Copy a child-index path.
fn copy_path(p: &Vec<usize>) -> (r: Vec<usize>)
    ensures
        r@ == p@,
{
    let mut r: Vec<usize> = Vec::new();
    let n = p.len();
    let mut i: usize = 0;
    while i < n
        invariant
            n == p@.len(),
            i <= n,
            r@ == p@.take(i as int),
        decreases n - i,
    {
        r.push(p[i]);
        proof {
            assert(r@ =~= p@.take(i as int + 1));
        }
        i = i + 1;
    }
    proof {
        assert(r@ =~= p@);
    }
    r
}

/// Append `templates` to the children of the node at `path[i..]`.
fn append_children_at(t: &mut PopulatedGoal, path: &Vec<usize>, i: usize, templates: Vec<
    PopulatedGoal,
>)
    requires
        i <= path@.len(),
        pg_path_valid(*old(t), path@, i as int),
    ensures
        pg_appended_seq(*old(t), *final(t), path@, i as int, templates@),
    decreases path@.len() - i,
{
    if i == path.len() {
        let mut ts = templates;
        t.children.append(&mut ts);
    } else {
        let idx = path[i];
        let ghost a = *t;
        let mut kid = t.children.remove(idx);
        append_children_at(&mut kid, path, i + 1, templates);
        t.children.insert(idx, kid);
        proof {
            assert(t.children@ =~= a.children@.update(idx as int, t.children@[idx as int]));
        }
    }
}


/// A sequence of childless nodes counts one node each.
proof fn lemma_count_seq_of_leaves(s: Seq<PopulatedGoal>)
    requires
        forall|j: int| 0 <= j < s.len() ==> (#[trigger] s[j]).children@.len() == 0,
    ensures
        pg_count_seq(s) == s.len(),
    decreases s.len(),
{
    if s.len() > 0 {
        assert(forall|j: int|
            0 <= j < s.drop_last().len() ==> (#[trigger] s.drop_last()[j]).children@.len() == 0);
        lemma_count_seq_of_leaves(s.drop_last());
        assert(pg_count(s.last()) == 1) by {
            assert(pg_count_seq(s.last().children@) == 0);
        }
    }
}

/// Two pending paths with childless nodes never extend one another, so they
/// diverge at some index.
proof fn lemma_pending_paths_diverge(t: PopulatedGoal, p: Seq<usize>, q: Seq<usize>)
    requires
        p != q,
        pg_path_valid(t, p, 0),
        pg_path_valid(t, q, 0),
        pg_node_at(t, p, 0).children@.len() == 0,
        pg_node_at(t, q, 0).children@.len() == 0,
    ensures
        exists|d: int| 0 <= d < p.len() && d < q.len() && p[d] != q[d],
{
    if !(exists|d: int| 0 <= d < p.len() && d < q.len() && #[trigger] p[d] != q[d]) {
        if p.len() <= q.len() {
            assert(p =~= q.take(p.len() as int)) by {
                assert(forall|d: int| 0 <= d < p.len() ==> #[trigger] p[d] == q[d]);
            }
            if p.len() == q.len() {
                assert(q.take(p.len() as int) =~= q);
                assert(false);
            }
            assert(p.len() < q.len());
            lemma_valid_path_prefix(t, q, 0, p.len() as int);
            assert((q[p.len() as int] as int) < pg_node_at(t, q.take(p.len() as int), 0).children@.len());
        } else {
            assert(q =~= p.take(q.len() as int)) by {
                assert(forall|d: int| 0 <= d < q.len() ==> #[trigger] p[d] == q[d]);
            }
            lemma_valid_path_prefix(t, p, 0, q.len() as int);
            assert((p[q.len() as int] as int) < pg_node_at(t, p.take(q.len() as int), 0).children@.len());
        }
    }
}

/// Create a nested, read-only snapshot of the subtree below `goal_id`,
/// annotated with the maximum-descendant-depth and maximum-sibling-layer-
/// width metrics, together with the set of all visited descendant ids.
/// Returns nothing if `goal_id` is not in the map.
///
/// The returned snapshot mirrors the flat map exactly (`pg_matches`), and
/// its node count is one more than the number of visited descendants.
#[verifier::rlimit(100)]
pub fn populate_goal_tree(goals: &IdMap<Goal>, goal_id: GoalId) -> (r: Option<(
    PopulatedGoal,
    IdSet,
)>)
    requires
        goals.wf(),
        forest_wf(goals@),
    ensures
        match r {
            Some(p) => {
                &&& goals@.contains_key(goal_id.0)
                &&& p.1.wf()
                &&& p.1@ == descendants(goals@, goal_id.0)
                &&& pg_matches(goals@, p.0)
                &&& pg_depths_ok(p.0)
                &&& pg_widths_ok(p.0)
                &&& p.0.id == goal_id
                &&& pg_count(p.0) == p.1@.len() + 1
                &&& match p.0.parent_goal_id {
                    Some(par) => goals@.contains_key(par.0) && goals@[par.0].child_ids().contains(goal_id.0),
                    None => forall|k: u32|
                        #[trigger] goals@.contains_key(k) ==> !goals@[k].child_ids().contains(
                            goal_id.0,
                        ),
                }
            },
            None => !goals@.contains_key(goal_id.0),
        },
{
    let ghost m = goals@;
    let root = goal_id.0;
    let root_goal = match goals.get(root) {
        Some(g) => g,
        None => {
            return None;
        },
    };
    proof {
        goals.lemma_view();
    }
    let parent_goal_id = get_goal_parent_id(goals, goal_id);
    let mut tree = populated_goal_traversal_template(goal_id, root_goal, parent_goal_id);
    let mut visited = IdSet::new();
    let mut stack: Vec<(GoalId, Vec<usize>)> = Vec::new();
    let empty_path: Vec<usize> = Vec::new();
    stack.push((goal_id, empty_path));
    let ghost mut expanded: Set<u32> = Set::empty();
    let ghost mut pending: Set<u32> = Set::empty().insert(root);
    let ghost mut owner: Map<u32, u32> = Map::empty();
    let ghost mut pendpaths: Set<Seq<usize>> = Set::<Seq<usize>>::empty().insert(Seq::empty());
    proof {
        assert(pg_count_seq(tree.children@) == 0);
        assert(pg_count(tree) == 1);
        assert(pendpaths.contains(stack@[0].1@)) by {
            assert(stack@[0].1@ =~= Seq::<usize>::empty());
        }
        assert(pg_partial(m, tree, pendpaths, Seq::<usize>::empty()));
        assert(pendpaths.len() == 1) by {
            assert(pendpaths =~= Set::<Seq<usize>>::empty().insert(Seq::empty()));
        }
        assert forall|q: Seq<usize>| #[trigger] pendpaths.contains(q) implies pg_path_valid(
            tree,
            q,
            0,
        ) && pg_node_at(tree, q, 0).children@.len() == 0 by {
            assert(q =~= Seq::<usize>::empty());
        }
    }
    while stack.len() > 0
        invariant
            goals.wf(),
            m == goals@,
            forest_wf(m),
            m.contains_key(root),
            m.dom().finite(),
            visited.wf(),
            forall|x: u32|
                #[trigger] visited@.contains(x) ==> reaches(m, root, x) && m.dom().contains(x),
            forall|t: int|
                0 <= t < stack@.len() ==> m.dom().contains((#[trigger] stack@[t]).0.0) && (
                stack@[t].0.0 == root || visited@.contains(stack@[t].0.0)),
            forall|t: int, u: int|
                0 <= t < u < stack@.len() ==> (#[trigger] stack@[t]).0.0 != (
                #[trigger] stack@[u]).0.0,
            forall|t: int| 0 <= t < stack@.len() ==> pending.contains((#[trigger] stack@[t]).0.0),
            pending.finite(),
            pending.len() == stack@.len(),
            forall|x: u32| #[trigger] pending.contains(x) ==> !expanded.contains(x),
            forall|x: u32| #[trigger] pending.contains(x) ==> x == root || visited@.contains(x),
            forall|x: u32| #[trigger] expanded.contains(x) ==> x == root || visited@.contains(x),
            expanded.contains(root) || pending.contains(root),
            forall|x: u32|
                #[trigger] visited@.contains(x) ==> expanded.contains(x) || pending.contains(x),
            forall|x: u32|
                #[trigger] expanded.contains(x) ==> m.dom().contains(x) && (forall|c: u32|
                    #[trigger] m[x].child_ids().contains(c) ==> visited@.contains(c)),
            forall|x: u32|
                #[trigger] visited@.contains(x) ==> owner.dom().contains(x) && expanded.contains(
                    owner[x],
                ) && m.dom().contains(owner[x]) && m[owner[x]].child_ids().contains(x),
            visited@.len() == visited.item_seq().len(),
            visited@.finite(),
            visited@.subset_of(m.dom()),
            visited@.len() <= m.dom().len(),
            // The tree under construction.
            pg_partial(m, tree, pendpaths, Seq::<usize>::empty()),
            tree.id == goal_id,
            tree.parent_goal_id == parent_goal_id,
            pg_count(tree) == 1 + visited@.len(),
            forall|t: int|
                0 <= t < stack@.len() ==> pg_path_valid(tree, (#[trigger] stack@[t]).1@, 0)
                    && pg_node_at(tree, stack@[t].1@, 0).id == stack@[t].0 && pendpaths.contains(
                    stack@[t].1@,
                ),
            forall|q: Seq<usize>|
                #[trigger] pendpaths.contains(q) ==> pg_path_valid(tree, q, 0) && pg_node_at(
                    tree,
                    q,
                    0,
                ).children@.len() == 0,
            pendpaths.finite(),
            pendpaths.len() == stack@.len(),
        decreases m.dom().len() - visited@.len(), stack@.len(),
    {
        let ghost pre_visited = visited@;
        let ghost pre_stack_with_cur = stack@;
        let ghost pre_expanded = expanded;
        let ghost pre_owner = owner;
        let (cur, path) = stack.pop().unwrap();
        let ghost pre_stack = stack@;
        proof {
            assert(pre_stack_with_cur[pre_stack_with_cur.len() - 1].0.0 == cur.0);
            assert(pending.contains(cur.0));
            assert(!expanded.contains(cur.0));
            assert(cur.0 == root || visited@.contains(cur.0));
            pending = pending.remove(cur.0);
            expanded = expanded.insert(cur.0);
            assert forall|t: int| 0 <= t < stack@.len() implies pending.contains(
                (#[trigger] stack@[t]).0.0,
            ) by {
                assert(stack@[t] == pre_stack_with_cur[t]);
                assert(pre_stack_with_cur[t].0.0 != cur.0);
            }
        }
        let cur_goal = goals.get(cur.0).unwrap();
        let n = cur_goal.children.len();
        let ghost kids = cur_goal.child_ids();
        // Build the children's snapshot templates.
        let mut templates: Vec<PopulatedGoal> = Vec::new();
        let mut j: usize = 0;
        while j < n
            invariant
                goals.wf(),
                m == goals@,
                forest_wf(m),
                m.dom().contains(cur.0),
                *cur_goal == m[cur.0],
                n == cur_goal.children@.len(),
                kids == cur_goal.child_ids(),
                j <= n,
                templates@.len() == j,
                forall|t: int|
                    0 <= t < j ==> {
                        let tp = #[trigger] templates@[t];
                        tp.id.0 == kids[t] && tp.parent_goal_id == Some(cur)
                            && tp.children@.len() == 0 && m.dom().contains(kids[t]) && tp.name@
                            == m[kids[t]].name@ && tp.effort_to_date == m[kids[t]].effort_to_date
                            && tp.effort_to_complete == m[kids[t]].effort_to_complete
                    },
            decreases n - j,
        {
            let child_id = cur_goal.children[j];
            proof {
                assert(kids[j as int] == child_id.0);
                assert(m.dom().contains(kids[j as int]));
            }
            let child = goals.get(child_id.0).unwrap();
            let tpl = populated_goal_traversal_template(child_id, child, Some(cur));
            templates.push(tpl);
            j = j + 1;
        }
        // Graft them under the current node, all at once.
        let ghost tpls = templates@;
        let ghost pre_tree = tree;
        let ghost pre_pendpaths = pendpaths;
        proof {
            assert(pendpaths.contains(path@));
            assert(pg_node_at(tree, path@, 0).children@.len() == 0);
            assert forall|t: int| 0 <= t < n implies !pendpaths.contains(
                #[trigger] path@.push(t as usize),
            ) by {
                let q = path@.push(t as usize);
                if pendpaths.contains(q) {
                    lemma_valid_path_prefix(tree, q, 0, path@.len() as int);
                    assert(q.take(path@.len() as int) =~= path@);
                }
            }
        }
        append_children_at(&mut tree, &path, 0, templates);
        proof {
            let pp = path@;
            assert(pg_appended_seq(pre_tree, tree, pp, 0, tpls));
            assert(pp.take(0) =~= Seq::<usize>::empty());
            assert(pg_node_at(pre_tree, pp, 0).id.0 == cur.0);
            lemma_append_partial(m, pre_tree, tree, pp, 0, tpls, pre_pendpaths, cur.0);
            pendpaths = pending_after_expand(pre_pendpaths, pp, n as int);
            lemma_pending_after_expand_card(pre_pendpaths, pp, n as int);
            lemma_appended_seq_count(pre_tree, tree, pp, 0, tpls);
            lemma_count_seq_of_leaves(tpls);
            lemma_appended_seq_at_path(pre_tree, tree, pp, 0, tpls);
            assert(pg_node_at(tree, pp, 0).children@ =~= tpls);
            // Old pending paths and stack paths are untouched.
            assert forall|q: Seq<usize>| #[trigger] pre_pendpaths.contains(q) && q != pp implies
                pg_path_valid(tree, q, 0) && pg_node_at(tree, q, 0) == pg_node_at(
                pre_tree,
                q,
                0,
            ) by {
                lemma_pending_paths_diverge(pre_tree, pp, q, );
                lemma_appended_seq_elsewhere(pre_tree, tree, pp, tpls, q, 0);
            }
            assert forall|q: Seq<usize>| #[trigger] pendpaths.contains(q) implies pg_path_valid(
                tree,
                q,
                0,
            ) && pg_node_at(tree, q, 0).children@.len() == 0 by {
                if pre_pendpaths.contains(q) && q != pp {
                } else {
                    let t = choose|t: int| 0 <= t < n && q == #[trigger] pp.push(t as usize);
                    lemma_path_push(tree, pp, 0, t as usize);
                    assert(pg_node_at(tree, q, 0) == tpls[t]);
                }
            }
            assert forall|t: int| 0 <= t < stack@.len() implies pg_path_valid(
                tree,
                (#[trigger] stack@[t]).1@,
                0,
            ) && pg_node_at(tree, stack@[t].1@, 0).id == stack@[t].0 && pendpaths.contains(
                stack@[t].1@,
            ) by {
                let q = stack@[t].1@;
                assert(pre_pendpaths.contains(q));
                assert(q != pp) by {
                    if q == pp {
                        assert(pg_node_at(pre_tree, q, 0).id == stack@[t].0);
                        assert(stack@[t].0.0 == cur.0);
                        assert(pre_stack_with_cur[t].0.0 == cur.0);
                    }
                }
            }
            assert(pg_count(tree) == 1 + pre_visited.len() + n);
        }
        // Record the children as visited and pending, in order.
        let mut i: usize = 0;
        while i < n
            invariant
                goals.wf(),
                m == goals@,
                forest_wf(m),
                m.contains_key(root),
                m.dom().finite(),
                visited.wf(),
                m.dom().contains(cur.0),
                *cur_goal == m[cur.0],
                n == cur_goal.children@.len(),
                kids == cur_goal.child_ids(),
                i <= n,
                cur.0 == root || reaches(m, root, cur.0),
                expanded == pre_expanded.insert(cur.0),
                !pre_expanded.contains(cur.0),
                visited@ == pre_visited.union(kids.take(i as int).to_set()),
                forall|x: u32|
                    #[trigger] pre_visited.contains(x) ==> pre_owner.dom().contains(x)
                        && pre_expanded.contains(pre_owner[x]) && m.dom().contains(pre_owner[x])
                        && m[pre_owner[x]].child_ids().contains(x),
                forall|x: u32|
                    #[trigger] visited@.contains(x) ==> reaches(m, root, x) && m.dom().contains(x),
                forall|t: int|
                    0 <= t < stack@.len() ==> m.dom().contains((#[trigger] stack@[t]).0.0) && (
                    stack@[t].0.0 == root || visited@.contains(stack@[t].0.0)),
                forall|t: int, u: int|
                    0 <= t < u < stack@.len() ==> (#[trigger] stack@[t]).0.0 != (
                    #[trigger] stack@[u]).0.0,
                forall|t: int| 0 <= t < stack@.len() ==> pending.contains(
                    (#[trigger] stack@[t]).0.0,
                ),
                pending.finite(),
                pending.len() == stack@.len(),
                forall|x: u32| #[trigger] pending.contains(x) ==> !expanded.contains(x),
                forall|x: u32|
                    #[trigger] pending.contains(x) ==> x == root || visited@.contains(x),
                forall|x: u32|
                    #[trigger] expanded.contains(x) ==> x == root || visited@.contains(x) || x
                        == cur.0,
                expanded.contains(root) || pending.contains(root),
                forall|x: u32|
                    #[trigger] visited@.contains(x) ==> expanded.contains(x) || pending.contains(
                        x,
                    ),
                forall|x: u32|
                    #[trigger] expanded.contains(x) && x != cur.0 ==> m.dom().contains(x) && (
                    forall|c: u32| #[trigger] m[x].child_ids().contains(c) ==> visited@.contains(c)),
                forall|t: int| 0 <= t < i ==> visited@.contains(#[trigger] kids[t]),
                forall|x: u32|
                    #[trigger] visited@.contains(x) ==> owner.dom().contains(x)
                        && expanded.contains(owner[x]) && m.dom().contains(owner[x])
                        && m[owner[x]].child_ids().contains(x),
                forall|x: u32| #[trigger] pre_visited.contains(x) ==> owner[x] == pre_owner[x]
                    && owner.dom().contains(x),
                visited@.len() == visited.item_seq().len(),
                visited@.len() == pre_visited.len() + i,
                visited@.finite(),
                visited@.subset_of(m.dom()),
                stack@.len() == pre_stack.len() + i,
                // The tree, already grown, does not change here.
                pg_partial(m, tree, pendpaths, Seq::<usize>::empty()),
                tree.id == goal_id,
                tree.parent_goal_id == parent_goal_id,
                pg_count(tree) == 1 + pre_visited.len() + n,
                pg_path_valid(tree, path@, 0),
                pg_node_at(tree, path@, 0).children@ == tpls,
                tpls.len() == n,
                forall|t: int|
                    0 <= t < n ==> {
                        let tp = #[trigger] tpls[t];
                        tp.id.0 == kids[t] && tp.children@.len() == 0
                    },
                forall|t: int|
                    0 <= t < stack@.len() ==> pg_path_valid(tree, (#[trigger] stack@[t]).1@, 0)
                        && pg_node_at(tree, stack@[t].1@, 0).id == stack@[t].0
                        && pendpaths.contains(stack@[t].1@),
                forall|q: Seq<usize>|
                    #[trigger] pendpaths.contains(q) ==> pg_path_valid(tree, q, 0) && pg_node_at(
                        tree,
                        q,
                        0,
                    ).children@.len() == 0,
                pendpaths.finite(),
                pendpaths.len() == pre_stack.len() + n,
                pendpaths == pending_after_expand(pre_pendpaths, path@, n as int),
            decreases n - i,
        {
            let child_id = cur_goal.children[i];
            proof {
                assert(kids[i as int] == child_id.0);
                assert(m.dom().contains(kids[i as int]) && kids[i as int] > cur.0);
                assert(m[cur.0].child_ids().contains(child_id.0));
                if cur.0 != root {
                    lemma_reaches_in_dom(m, root, cur.0);
                }
                assert(child_id.0 > root);
                if visited@.contains(child_id.0) {
                    if pre_visited.contains(child_id.0) {
                        let e = pre_owner[child_id.0];
                        assert(pre_expanded.contains(e));
                        assert(m[e].child_ids().contains(child_id.0));
                        assert(e == cur.0);
                        assert(false);
                    } else {
                        assert(kids.take(i as int).to_set().contains(child_id.0));
                        let t = choose|t: int|
                            0 <= t < kids.take(i as int).len() && kids.take(i as int)[t]
                                == child_id.0;
                        assert(kids[t] == child_id.0);
                        assert(m[cur.0].child_ids().no_duplicates());
                        assert(false);
                    }
                }
                if cur.0 == root {
                    lemma_reaches_child(m, cur.0, child_id.0);
                } else {
                    lemma_reaches_extend(m, root, cur.0, child_id.0);
                }
            }
            let mut cp = copy_path(&path);
            cp.push(i);
            let ghost mid_visited = visited@;
            let ghost mid_stack = stack@;
            visited.insert(child_id.0);
            proof {
                assert(visited@ == mid_visited.insert(child_id.0));
                lemma_len_subset(visited@, m.dom());
            }
            stack.push((child_id, cp));
            proof {
                assert(stack@ == mid_stack.push((child_id, cp)));
                assert(!pending.contains(child_id.0));
                pending = pending.insert(child_id.0);
                owner = owner.insert(child_id.0, cur.0);
                lemma_to_set_push(kids.take(i as int), kids[i as int]);
                assert(kids.take(i as int + 1) == kids.take(i as int).push(kids[i as int]));
                assert(visited@ =~= pre_visited.union(kids.take(i as int + 1).to_set()));
                assert(stack@[stack@.len() - 1].0.0 == child_id.0);
                // The new entry's path is valid and pending.
                assert(cp@ == path@.push(i as usize)) by {
                    assert(cp@ =~= path@.push(i as usize));
                }
                lemma_path_push(tree, path@, 0, i as usize);
                assert(pg_node_at(tree, cp@, 0) == tpls[i as int]);
                assert(pendpaths.contains(cp@)) by {
                    assert(exists|t: int|
                        0 <= t < n && cp@ == #[trigger] path@.push(t as usize)) by {
                        assert(cp@ == path@.push((i as int) as usize));
                    }
                }
            }
            i = i + 1;
        }
        proof {
            assert forall|x: u32| #[trigger] expanded.contains(x) implies m.dom().contains(x) && (
            forall|c: u32| #[trigger] m[x].child_ids().contains(c) ==> visited@.contains(c)) by {
                if x == cur.0 {
                    assert forall|c: u32| #[trigger] m[x].child_ids().contains(c) implies
                        visited@.contains(c) by {
                        let t = choose|t: int|
                            0 <= t < m[x].child_ids().len() && m[x].child_ids()[t] == c;
                        assert(kids[t] == c);
                    }
                }
            }
            lemma_len_subset(visited@, m.dom());
            if n == 0 {
                assert(visited@.len() == pre_visited.len());
                assert(stack@.len() == pre_stack_with_cur.len() - 1);
            } else {
                assert(visited@.len() > pre_visited.len());
            }
        }
    }
    proof {
        assert(pending.len() == 0);
        assert(pending =~= Set::<u32>::empty());
        assert(expanded.contains(root));
        assert forall|c: u32| #[trigger] m[root].child_ids().contains(c) implies visited@.contains(
            c,
        ) by {}
        assert forall|x: u32, c: u32|
            visited@.contains(x) && #[trigger] m[x].child_ids().contains(c) implies
            visited@.contains(c) by {
            assert(expanded.contains(x));
        }
        lemma_closed_set_contains_descendants(m, root, visited@);
        assert forall|x: u32| #[trigger] descendants(m, root).contains(x) implies visited@.contains(
            x,
        ) by {
            assert(reaches(m, root, x));
        }
        assert(visited@ =~= descendants(m, root));
        assert(pendpaths.len() == 0);
        assert(pendpaths =~= Set::<Seq<usize>>::empty());
        lemma_partial_empty_matches(m, tree, pendpaths, Seq::<usize>::empty());
    }
    // The structure is complete and mirrors the map.  Compute the layout
    // metrics in dedicated verified passes: per-node depths, per-depth layer
    // counts, their back-propagation, and the width assignment.
    let ghost tree_m = tree;
    proof {
        assert(!visited@.contains(root)) by {
            if visited@.contains(root) {
                lemma_reaches_in_dom(m, root, root);
            }
        }
        assert(visited@.insert(root).subset_of(m.dom()));
        lemma_len_subset(visited@.insert(root), m.dom());
        goals.lemma_view();
        assert(goals.entries.len() == goals.entry_seq().len());
        assert(pg_count(tree) <= usize::MAX);
        lemma_lh_lt_count(tree);
    }
    let h = compute_depths(&mut tree);
    proof {
        lemma_same_shape_matches(m, tree_m, tree);
        lemma_same_shape_count(tree_m, tree);
        lemma_same_shape_lh(tree_m, tree);
        lemma_lh_lt_count(tree);
    }
    // Count the nodes on each layer below the root.
    let mut widths: Vec<usize> = Vec::new();
    let mut d: usize = 1;
    while d <= h
        invariant
            h == pg_leaf_height(tree),
            h < usize::MAX,
            pg_count(tree) <= usize::MAX,
            1 <= d <= h + 1,
            widths@.len() == d - 1,
            forall|i: int|
                0 <= i < d - 1 ==> ((#[trigger] widths@[i]) as nat) == pg_count_at_depth(
                    tree,
                    (i + 1) as nat,
                ),
        decreases h + 1 - d,
    {
        let c = count_nodes_at_depth(&tree, d);
        widths.push(c);
        d = d + 1;
    }
    // Propagate the layer counts from the deepest layer toward the
    // shallowest: each layer's value becomes the maximum of its own count
    // and everything deeper.
    let ghost counts0 = widths@;
    let mut k = widths.len();
    let mut have_max = false;
    let mut maxv: usize = 0;
    while k > 0
        invariant
            h == pg_leaf_height(tree),
            widths@.len() == h,
            counts0.len() == h,
            forall|i: int|
                0 <= i < h ==> ((#[trigger] counts0[i]) as nat) == pg_count_at_depth(
                    tree,
                    (i + 1) as nat,
                ),
            k <= h,
            forall|i: int| 0 <= i < k ==> #[trigger] widths@[i] == counts0[i],
            forall|i: int|
                k <= i < h ==> ((#[trigger] widths@[i]) as nat) == max_count_from(
                    tree,
                    (i + 1) as nat,
                ),
            have_max == (k < h),
            have_max ==> (maxv as nat) == max_count_from(tree, (k + 1) as nat),
        decreases k,
    {
        k = k - 1;
        let w = widths[k];
        proof {
            assert((w as nat) == pg_count_at_depth(tree, (k + 1) as nat));
        }
        if have_max {
            if w > maxv {
                maxv = w;
            } else {
                widths[k] = maxv;
            }
            proof {
                assert((maxv as nat) == max_count_from(tree, (k + 1) as nat));
            }
        } else {
            have_max = true;
            maxv = w;
            proof {
                assert(max_count_from(tree, (h + 1) as nat) == 0);
                assert((maxv as nat) == max_count_from(tree, (k + 1) as nat));
            }
        }
    }
    // The walk never touches the root's own width: the first layer's
    // propagated value, or the root's own child count with no layers below.
    let ghost tree_d = tree;
    let rw = if widths.len() > 0 {
        widths[0]
    } else {
        tree.children.len()
    };
    tree.max_child_layer_width = rw;
    proof {
        assert(pg_same_shape(tree_d, tree) && pg_depths_eq(tree_d, tree)) by {
            lemma_same_shape_refl_seq(tree_d.children@);
            lemma_depths_eq_refl_seq(tree_d.children@);
        }
        lemma_same_shape_matches(m, tree_d, tree);
        lemma_same_shape_count(tree_d, tree);
        lemma_depths_eq_ok(tree_d, tree);
        lemma_same_shape_lh(tree_d, tree);
        if h == 0 {
            lemma_lh_zero_no_children(tree_d);
        }
    }
    // Give every deeper node the propagated width for its own depth.
    let ghost tree_w = tree;
    assign_widths(&mut tree, 0, &widths);
    proof {
        lemma_same_shape_matches(m, tree_w, tree);
        lemma_same_shape_count(tree_w, tree);
        lemma_depths_eq_ok(tree_w, tree);
        lemma_same_shape_lh(tree_w, tree);
        assert(pg_same_shape(tree_d, tree_w)) by {
            lemma_same_shape_refl_seq(tree_d.children@);
        }
        lemma_same_shape_trans(tree_d, tree_w, tree);
        assert forall|i: int|
            0 <= i < widths@.len() implies ((#[trigger] widths@[i]) as nat) == max_count_from(
            tree,
            (i + 1) as nat,
        ) by {
            lemma_same_shape_mcf(tree_d, tree, (i + 1) as nat);
        }
        assert(widths@.len() == pg_leaf_height(tree));
        lemma_widths_from_law(tree, tree, 0, widths@);
        lemma_same_shape_mcf(tree_d, tree, 1);
        assert((tree.max_child_layer_width as nat) == (if pg_leaf_height(tree) > 0 {
            max_count_from(tree, 1)
        } else {
            tree.children@.len()
        }));
        assert(pg_widths_ok(tree));
    }
    Some((tree, visited))
}


/// Partition the descendants of `goal_id` by a predicate on id and goal.
/// Returns `(satisfies, does not satisfy)`, or nothing if `goal_id` is not
/// in the map.
#[verifier::rlimit(100)]
pub fn partition_tree_with_predicate<P: Fn(GoalId, &Goal) -> bool>(
    goals: &IdMap<Goal>,
    goal_id: GoalId,
    predicate: &P,
) -> (r: Option<(IdSet, IdSet)>)
    requires
        goals.wf(),
        forest_wf(goals@),
        forall|a: GoalId, g: Goal| call_requires(*predicate, (a, &g)),
    ensures
        match r {
            Some(pf) => {
                &&& goals@.contains_key(goal_id.0)
                &&& pf.0.wf()
                &&& pf.1.wf()
                &&& pf.0@.union(pf.1@) == descendants(goals@, goal_id.0)
                &&& pf.0@.disjoint(pf.1@)
                &&& forall|x: u32|
                    #[trigger] pf.0@.contains(x) ==> goals@.contains_key(x) && call_ensures(
                        *predicate,
                        (GoalId(x), &goals@[x]),
                        true,
                    )
                &&& forall|x: u32|
                    #[trigger] pf.1@.contains(x) ==> goals@.contains_key(x) && call_ensures(
                        *predicate,
                        (GoalId(x), &goals@[x]),
                        false,
                    )
            },
            None => !goals@.contains_key(goal_id.0),
        },
{
    let ghost m = goals@;
    let root = goal_id.0;
    if !goals.contains_key(root) {
        return None;
    }
    proof {
        goals.lemma_view();
    }
    let mut visited = IdSet::new();
    let mut passing = IdSet::new();
    let mut failing = IdSet::new();
    let mut stack: Vec<GoalId> = Vec::new();
    stack.push(goal_id);
    let ghost mut expanded: Set<u32> = Set::empty();
    let ghost mut pending: Set<u32> = Set::empty().insert(root);
    let ghost mut owner: Map<u32, u32> = Map::empty();
    while stack.len() > 0
        invariant
            goals.wf(),
            m == goals@,
            forest_wf(m),
            m.contains_key(root),
            m.dom().finite(),
            visited.wf(),
            passing.wf(),
            failing.wf(),
            forall|a: GoalId, g: Goal| call_requires(*predicate, (a, &g)),
            forall|x: u32|
                #[trigger] visited@.contains(x) ==> reaches(m, root, x) && m.dom().contains(x),
            forall|t: int|
                0 <= t < stack@.len() ==> m.dom().contains((#[trigger] stack@[t]).0) && (
                stack@[t].0 == root || visited@.contains(stack@[t].0)),
            forall|t: int, u: int|
                0 <= t < u < stack@.len() ==> (#[trigger] stack@[t]).0 != (#[trigger] stack@[u]).0,
            forall|t: int| 0 <= t < stack@.len() ==> pending.contains((#[trigger] stack@[t]).0),
            pending.finite(),
            pending.len() == stack@.len(),
            forall|x: u32| #[trigger] pending.contains(x) ==> !expanded.contains(x),
            forall|x: u32| #[trigger] pending.contains(x) ==> x == root || visited@.contains(x),
            forall|x: u32| #[trigger] expanded.contains(x) ==> x == root || visited@.contains(x),
            expanded.contains(root) || pending.contains(root),
            forall|x: u32|
                #[trigger] visited@.contains(x) ==> expanded.contains(x) || pending.contains(x),
            forall|x: u32|
                #[trigger] expanded.contains(x) ==> m.dom().contains(x) && (forall|c: u32|
                    #[trigger] m[x].child_ids().contains(c) ==> visited@.contains(c)),
            forall|x: u32|
                #[trigger] visited@.contains(x) ==> owner.dom().contains(x) && expanded.contains(
                    owner[x],
                ) && m.dom().contains(owner[x]) && m[owner[x]].child_ids().contains(x),
            visited@.len() == visited.item_seq().len(),
            visited@.finite(),
            visited@.subset_of(m.dom()),
            visited@.len() <= m.dom().len(),
            forall|x: u32|
                #[trigger] passing@.contains(x) ==> visited@.contains(x) && call_ensures(
                    *predicate,
                    (GoalId(x), &m[x]),
                    true,
                ),
            forall|x: u32|
                #[trigger] failing@.contains(x) ==> visited@.contains(x) && call_ensures(
                    *predicate,
                    (GoalId(x), &m[x]),
                    false,
                ),
            forall|x: u32|
                #[trigger] visited@.contains(x) ==> passing@.contains(x) || failing@.contains(x),
            forall|x: u32| !(#[trigger] passing@.contains(x) && failing@.contains(x)),
        decreases m.dom().len() - visited@.len(), stack@.len(),
    {
        let ghost pre_visited = visited@;
        let ghost pre_stack_with_cur = stack@;
        let ghost pre_expanded = expanded;
        let ghost pre_owner = owner;
        let cur = stack.pop().unwrap();
        let ghost pre_stack = stack@;
        proof {
            assert(pre_stack_with_cur[pre_stack_with_cur.len() - 1].0 == cur.0);
            assert(pending.contains(cur.0));
            assert(!expanded.contains(cur.0));
            assert(cur.0 == root || visited@.contains(cur.0));
            pending = pending.remove(cur.0);
            expanded = expanded.insert(cur.0);
            assert forall|t: int| 0 <= t < stack@.len() implies pending.contains(
                (#[trigger] stack@[t]).0,
            ) by {
                assert(stack@[t] == pre_stack_with_cur[t]);
                assert(pre_stack_with_cur[t].0 != cur.0);
            }
        }
        let cur_goal = goals.get(cur.0).unwrap();
        let n = cur_goal.children.len();
        let ghost kids = cur_goal.child_ids();
        let mut i: usize = 0;
        while i < n
            invariant
                goals.wf(),
                m == goals@,
                forest_wf(m),
                m.contains_key(root),
                m.dom().finite(),
                visited.wf(),
                passing.wf(),
                failing.wf(),
                forall|a: GoalId, g: Goal| call_requires(*predicate, (a, &g)),
                m.dom().contains(cur.0),
                *cur_goal == m[cur.0],
                n == cur_goal.children@.len(),
                kids == cur_goal.child_ids(),
                i <= n,
                cur.0 == root || reaches(m, root, cur.0),
                expanded == pre_expanded.insert(cur.0),
                !pre_expanded.contains(cur.0),
                visited@ == pre_visited.union(kids.take(i as int).to_set()),
                forall|x: u32|
                    #[trigger] pre_visited.contains(x) ==> pre_owner.dom().contains(x)
                        && pre_expanded.contains(pre_owner[x]) && m.dom().contains(pre_owner[x])
                        && m[pre_owner[x]].child_ids().contains(x),
                forall|x: u32|
                    #[trigger] visited@.contains(x) ==> reaches(m, root, x) && m.dom().contains(x),
                forall|t: int|
                    0 <= t < stack@.len() ==> m.dom().contains((#[trigger] stack@[t]).0) && (
                    stack@[t].0 == root || visited@.contains(stack@[t].0)),
                forall|t: int, u: int|
                    0 <= t < u < stack@.len() ==> (#[trigger] stack@[t]).0 != (
                    #[trigger] stack@[u]).0,
                forall|t: int| 0 <= t < stack@.len() ==> pending.contains(
                    (#[trigger] stack@[t]).0,
                ),
                pending.finite(),
                pending.len() == stack@.len(),
                forall|x: u32| #[trigger] pending.contains(x) ==> !expanded.contains(x),
                forall|x: u32|
                    #[trigger] pending.contains(x) ==> x == root || visited@.contains(x),
                forall|x: u32|
                    #[trigger] expanded.contains(x) ==> x == root || visited@.contains(x) || x
                        == cur.0,
                expanded.contains(root) || pending.contains(root),
                forall|x: u32|
                    #[trigger] visited@.contains(x) ==> expanded.contains(x) || pending.contains(
                        x,
                    ),
                forall|x: u32|
                    #[trigger] expanded.contains(x) && x != cur.0 ==> m.dom().contains(x) && (
                    forall|c: u32| #[trigger] m[x].child_ids().contains(c) ==> visited@.contains(c)),
                forall|t: int| 0 <= t < i ==> visited@.contains(#[trigger] kids[t]),
                forall|x: u32|
                    #[trigger] visited@.contains(x) ==> owner.dom().contains(x)
                        && expanded.contains(owner[x]) && m.dom().contains(owner[x])
                        && m[owner[x]].child_ids().contains(x),
                forall|x: u32| #[trigger] pre_visited.contains(x) ==> owner[x] == pre_owner[x]
                    && owner.dom().contains(x),
                visited@.len() == visited.item_seq().len(),
                visited@.len() == pre_visited.len() + i,
                visited@.finite(),
                visited@.subset_of(m.dom()),
                stack@.len() == pre_stack.len() + i,
                forall|x: u32|
                    #[trigger] passing@.contains(x) ==> visited@.contains(x) && call_ensures(
                        *predicate,
                        (GoalId(x), &m[x]),
                        true,
                    ),
                forall|x: u32|
                    #[trigger] failing@.contains(x) ==> visited@.contains(x) && call_ensures(
                        *predicate,
                        (GoalId(x), &m[x]),
                        false,
                    ),
                forall|x: u32|
                    #[trigger] visited@.contains(x) ==> passing@.contains(x) || failing@.contains(
                        x,
                    ),
                forall|x: u32| !(#[trigger] passing@.contains(x) && failing@.contains(x)),
            decreases n - i,
        {
            let child_id = cur_goal.children[i];
            proof {
                assert(kids[i as int] == child_id.0);
                assert(m.dom().contains(kids[i as int]) && kids[i as int] > cur.0);
                assert(m[cur.0].child_ids().contains(child_id.0));
                if cur.0 != root {
                    lemma_reaches_in_dom(m, root, cur.0);
                }
                assert(child_id.0 > root);
                if visited@.contains(child_id.0) {
                    if pre_visited.contains(child_id.0) {
                        let e = pre_owner[child_id.0];
                        assert(pre_expanded.contains(e));
                        assert(m[e].child_ids().contains(child_id.0));
                        assert(e == cur.0);
                        assert(false);
                    } else {
                        assert(kids.take(i as int).to_set().contains(child_id.0));
                        let t = choose|t: int|
                            0 <= t < kids.take(i as int).len() && kids.take(i as int)[t]
                                == child_id.0;
                        assert(kids[t] == child_id.0);
                        assert(m[cur.0].child_ids().no_duplicates());
                        assert(false);
                    }
                }
                if cur.0 == root {
                    lemma_reaches_child(m, cur.0, child_id.0);
                } else {
                    lemma_reaches_extend(m, root, cur.0, child_id.0);
                }
            }
            let child = goals.get(child_id.0).unwrap();
            let verdict = predicate(child_id, child);
            let ghost mid_visited = visited@;
            let ghost mid_stack = stack@;
            visited.insert(child_id.0);
            if verdict {
                passing.insert(child_id.0);
            } else {
                failing.insert(child_id.0);
            }
            stack.push(child_id);
            proof {
                assert(visited@ == mid_visited.insert(child_id.0));
                assert(stack@ == mid_stack.push(child_id));
                assert(!pending.contains(child_id.0));
                pending = pending.insert(child_id.0);
                owner = owner.insert(child_id.0, cur.0);
                lemma_len_subset(visited@, m.dom());
                lemma_to_set_push(kids.take(i as int), kids[i as int]);
                assert(kids.take(i as int + 1) == kids.take(i as int).push(kids[i as int]));
                assert(visited@ =~= pre_visited.union(kids.take(i as int + 1).to_set()));
                assert(stack@[stack@.len() - 1].0 == child_id.0);
                assert(GoalId(child_id.0) == child_id);
                assert(*child == m[child_id.0]);
            }
            i = i + 1;
        }
        proof {
            assert forall|x: u32| #[trigger] expanded.contains(x) implies m.dom().contains(x) && (
            forall|c: u32| #[trigger] m[x].child_ids().contains(c) ==> visited@.contains(c)) by {
                if x == cur.0 {
                    assert forall|c: u32| #[trigger] m[x].child_ids().contains(c) implies
                        visited@.contains(c) by {
                        let t = choose|t: int|
                            0 <= t < m[x].child_ids().len() && m[x].child_ids()[t] == c;
                        assert(kids[t] == c);
                    }
                }
            }
            lemma_len_subset(visited@, m.dom());
            if n == 0 {
                assert(visited@.len() == pre_visited.len());
                assert(stack@.len() == pre_stack_with_cur.len() - 1);
            } else {
                assert(visited@.len() > pre_visited.len());
            }
        }
    }
    proof {
        assert(pending.len() == 0);
        assert(pending =~= Set::<u32>::empty());
        assert(expanded.contains(root));
        assert forall|c: u32| #[trigger] m[root].child_ids().contains(c) implies visited@.contains(
            c,
        ) by {}
        assert forall|x: u32, c: u32|
            visited@.contains(x) && #[trigger] m[x].child_ids().contains(c) implies
            visited@.contains(c) by {
            assert(expanded.contains(x));
        }
        lemma_closed_set_contains_descendants(m, root, visited@);
        assert forall|x: u32| #[trigger] descendants(m, root).contains(x) implies visited@.contains(
            x,
        ) by {
            assert(reaches(m, root, x));
        }
        assert(visited@ =~= descendants(m, root));
        assert(passing@.union(failing@) =~= descendants(m, root));
        assert(passing@.disjoint(failing@)) by {
            assert forall|x: u32| !(passing@.contains(x) && #[trigger] failing@.contains(x)) by {}
        }
    }
    Some((passing, failing))
}

/// Collect the descendant ids of `goal_id` that satisfy the predicate, or
/// nothing if `goal_id` is not in the map.
pub fn visit_tree_with_predicate<P: Fn(GoalId, &Goal) -> bool>(
    goals: &IdMap<Goal>,
    goal_id: GoalId,
    predicate: &P,
) -> (r: Option<IdSet>)
    requires
        goals.wf(),
        forest_wf(goals@),
        forall|a: GoalId, g: Goal| call_requires(*predicate, (a, &g)),
    ensures
        match r {
            Some(s) => {
                &&& goals@.contains_key(goal_id.0)
                &&& s.wf()
                &&& s@.subset_of(descendants(goals@, goal_id.0))
                &&& forall|x: u32|
                    #[trigger] s@.contains(x) ==> goals@.contains_key(x) && call_ensures(
                        *predicate,
                        (GoalId(x), &goals@[x]),
                        true,
                    )
                &&& forall|x: u32|
                    descendants(goals@, goal_id.0).contains(x) && !s@.contains(x)
                        ==> goals@.contains_key(x) && call_ensures(
                        *predicate,
                        (GoalId(x), &goals@[x]),
                        false,
                    )
            },
            None => !goals@.contains_key(goal_id.0),
        },
{
    match partition_tree_with_predicate(goals, goal_id, predicate) {
        Some((passing, failing)) => {
            proof {
                assert forall|x: u32|
                    descendants(goals@, goal_id.0).contains(x) && !passing@.contains(x) implies
                    goals@.contains_key(x) && call_ensures(
                    *predicate,
                    (GoalId(x), &goals@[x]),
                    false,
                ) by {
                    assert(passing@.union(failing@).contains(x));
                }
                assert forall|x: u32| #[trigger] passing@.contains(x) implies descendants(
                    goals@,
                    goal_id.0,
                ).contains(x) by {
                    assert(passing@.union(failing@).contains(x));
                }
            }
            Some(passing)
        },
        None => None,
    }
}


/// Collect the descendant ids whose predicate verdict is true, where the
/// predicate also receives the immediate parent's id and verdict (the root's
/// verdict is supplied by the caller).  The returned set is exactly the
/// positive part of some verdict assignment consistent with the predicate
/// along every parent/child edge.  Returns nothing if `goal_id` is not in
/// the map.
#[verifier::rlimit(100)]
pub fn visit_tree_with_predicate_and_parent<P: Fn(GoalId, bool, GoalId, &Goal) -> bool>(
    goals: &IdMap<Goal>,
    goal_id: GoalId,
    predicate: &P,
    does_root_satisfy_predicate: bool,
) -> (r: Option<IdSet>)
    requires
        goals.wf(),
        forest_wf(goals@),
        forall|a: GoalId, b: bool, c: GoalId, g: Goal|
            call_requires(*predicate, (a, b, c, &g)),
    ensures
        match r {
            Some(s) => {
                &&& goals@.contains_key(goal_id.0)
                &&& s.wf()
                &&& exists|fl: Map<u32, bool>|
                    {
                        &&& fl.contains_key(goal_id.0)
                        &&& fl[goal_id.0] == does_root_satisfy_predicate
                        &&& forall|x: u32|
                            #[trigger] descendants(goals@, goal_id.0).contains(x)
                                ==> fl.contains_key(x)
                        &&& forall|k: u32, c: u32|
                            (k == goal_id.0 || descendants(goals@, goal_id.0).contains(k))
                                && goals@.contains_key(k)
                                && #[trigger] goals@[k].child_ids().contains(c) ==> call_ensures(
                                *predicate,
                                (GoalId(k), fl[k], GoalId(c), &goals@[c]),
                                fl[c],
                            )
                        &&& s@ == Set::new(
                            |x: u32| descendants(goals@, goal_id.0).contains(x) && fl[x],
                        )
                    }
            },
            None => !goals@.contains_key(goal_id.0),
        },
{
    let ghost m = goals@;
    let root = goal_id.0;
    if !goals.contains_key(root) {
        return None;
    }
    proof {
        goals.lemma_view();
    }
    let mut visited = IdSet::new();
    let mut matching = IdSet::new();
    let mut stack: Vec<(GoalId, bool)> = Vec::new();
    stack.push((goal_id, does_root_satisfy_predicate));
    let ghost mut expanded: Set<u32> = Set::empty();
    let ghost mut pending: Set<u32> = Set::empty().insert(root);
    let ghost mut owner: Map<u32, u32> = Map::empty();
    let ghost mut flags: Map<u32, bool> = Map::empty().insert(root, does_root_satisfy_predicate);
    while stack.len() > 0
        invariant
            goals.wf(),
            m == goals@,
            forest_wf(m),
            m.contains_key(root),
            m.dom().finite(),
            visited.wf(),
            matching.wf(),
            forall|a: GoalId, b: bool, c: GoalId, g: Goal|
                call_requires(*predicate, (a, b, c, &g)),
            forall|x: u32|
                #[trigger] visited@.contains(x) ==> reaches(m, root, x) && m.dom().contains(x),
            forall|t: int|
                0 <= t < stack@.len() ==> m.dom().contains((#[trigger] stack@[t]).0.0) && (
                stack@[t].0.0 == root || visited@.contains(stack@[t].0.0)),
            forall|t: int, u: int|
                0 <= t < u < stack@.len() ==> (#[trigger] stack@[t]).0.0 != (
                #[trigger] stack@[u]).0.0,
            forall|t: int| 0 <= t < stack@.len() ==> pending.contains((#[trigger] stack@[t]).0.0),
            pending.finite(),
            pending.len() == stack@.len(),
            forall|x: u32| #[trigger] pending.contains(x) ==> !expanded.contains(x),
            forall|x: u32| #[trigger] pending.contains(x) ==> x == root || visited@.contains(x),
            forall|x: u32| #[trigger] expanded.contains(x) ==> x == root || visited@.contains(x),
            expanded.contains(root) || pending.contains(root),
            forall|x: u32|
                #[trigger] visited@.contains(x) ==> expanded.contains(x) || pending.contains(x),
            forall|x: u32|
                #[trigger] expanded.contains(x) ==> m.dom().contains(x) && (forall|c: u32|
                    #[trigger] m[x].child_ids().contains(c) ==> visited@.contains(c)),
            forall|x: u32|
                #[trigger] visited@.contains(x) ==> owner.dom().contains(x) && expanded.contains(
                    owner[x],
                ) && m.dom().contains(owner[x]) && m[owner[x]].child_ids().contains(x),
            visited@.len() == visited.item_seq().len(),
            visited@.finite(),
            visited@.subset_of(m.dom()),
            visited@.len() <= m.dom().len(),
            flags.contains_key(root),
            flags[root] == does_root_satisfy_predicate,
            forall|x: u32| #[trigger] visited@.contains(x) ==> flags.contains_key(x),
            forall|t: int|
                0 <= t < stack@.len() ==> flags.contains_key((#[trigger] stack@[t]).0.0)
                    && flags[stack@[t].0.0] == stack@[t].1,
            forall|x: u32|
                #[trigger] visited@.contains(x) ==> call_ensures(
                    *predicate,
                    (GoalId(owner[x]), flags[owner[x]], GoalId(x), &m[x]),
                    flags[x],
                ),
            forall|x: u32|
                #[trigger] matching@.contains(x) <==> visited@.contains(x) && flags[x],
        decreases m.dom().len() - visited@.len(), stack@.len(),
    {
        let ghost pre_visited = visited@;
        let ghost pre_stack_with_cur = stack@;
        let ghost pre_expanded = expanded;
        let ghost pre_owner = owner;
        let ghost pre_flags = flags;
        let (cur, cur_flag) = stack.pop().unwrap();
        let ghost pre_stack = stack@;
        proof {
            assert(pre_stack_with_cur[pre_stack_with_cur.len() - 1].0.0 == cur.0);
            assert(pending.contains(cur.0));
            assert(!expanded.contains(cur.0));
            assert(cur.0 == root || visited@.contains(cur.0));
            pending = pending.remove(cur.0);
            expanded = expanded.insert(cur.0);
            assert forall|t: int| 0 <= t < stack@.len() implies pending.contains(
                (#[trigger] stack@[t]).0.0,
            ) by {
                assert(stack@[t] == pre_stack_with_cur[t]);
                assert(pre_stack_with_cur[t].0.0 != cur.0);
            }
        }
        let cur_goal = goals.get(cur.0).unwrap();
        let n = cur_goal.children.len();
        let ghost kids = cur_goal.child_ids();
        let mut i: usize = 0;
        while i < n
            invariant
                goals.wf(),
                m == goals@,
                forest_wf(m),
                m.contains_key(root),
                m.dom().finite(),
                visited.wf(),
                matching.wf(),
                forall|a: GoalId, b: bool, c: GoalId, g: Goal|
                    call_requires(*predicate, (a, b, c, &g)),
                m.dom().contains(cur.0),
                *cur_goal == m[cur.0],
                n == cur_goal.children@.len(),
                kids == cur_goal.child_ids(),
                i <= n,
                cur.0 == root || reaches(m, root, cur.0),
                expanded == pre_expanded.insert(cur.0),
                !pre_expanded.contains(cur.0),
                visited@ == pre_visited.union(kids.take(i as int).to_set()),
                forall|x: u32|
                    #[trigger] pre_visited.contains(x) ==> pre_owner.dom().contains(x)
                        && pre_expanded.contains(pre_owner[x]) && m.dom().contains(pre_owner[x])
                        && m[pre_owner[x]].child_ids().contains(x),
                forall|x: u32|
                    #[trigger] visited@.contains(x) ==> reaches(m, root, x) && m.dom().contains(x),
                forall|t: int|
                    0 <= t < stack@.len() ==> m.dom().contains((#[trigger] stack@[t]).0.0) && (
                    stack@[t].0.0 == root || visited@.contains(stack@[t].0.0)),
                forall|t: int, u: int|
                    0 <= t < u < stack@.len() ==> (#[trigger] stack@[t]).0.0 != (
                    #[trigger] stack@[u]).0.0,
                forall|t: int| 0 <= t < stack@.len() ==> pending.contains(
                    (#[trigger] stack@[t]).0.0,
                ),
                pending.finite(),
                pending.len() == stack@.len(),
                forall|x: u32| #[trigger] pending.contains(x) ==> !expanded.contains(x),
                forall|x: u32|
                    #[trigger] pending.contains(x) ==> x == root || visited@.contains(x),
                forall|x: u32|
                    #[trigger] expanded.contains(x) ==> x == root || visited@.contains(x) || x
                        == cur.0,
                expanded.contains(root) || pending.contains(root),
                forall|x: u32|
                    #[trigger] visited@.contains(x) ==> expanded.contains(x) || pending.contains(
                        x,
                    ),
                forall|x: u32|
                    #[trigger] expanded.contains(x) && x != cur.0 ==> m.dom().contains(x) && (
                    forall|c: u32| #[trigger] m[x].child_ids().contains(c) ==> visited@.contains(c)),
                forall|t: int| 0 <= t < i ==> visited@.contains(#[trigger] kids[t]),
                forall|x: u32|
                    #[trigger] visited@.contains(x) ==> owner.dom().contains(x)
                        && expanded.contains(owner[x]) && m.dom().contains(owner[x])
                        && m[owner[x]].child_ids().contains(x),
                forall|x: u32| #[trigger] pre_visited.contains(x) ==> owner[x] == pre_owner[x]
                    && owner.dom().contains(x),
                visited@.len() == visited.item_seq().len(),
                visited@.len() == pre_visited.len() + i,
                visited@.finite(),
                visited@.subset_of(m.dom()),
                stack@.len() == pre_stack.len() + i,
                flags.contains_key(root),
                flags[root] == does_root_satisfy_predicate,
                flags.contains_key(cur.0),
                flags[cur.0] == cur_flag,
                forall|x: u32| #[trigger] visited@.contains(x) ==> flags.contains_key(x),
                forall|x: u32| #[trigger] pre_visited.contains(x) ==> flags[x] == pre_flags[x],
                forall|t: int|
                    0 <= t < stack@.len() ==> flags.contains_key((#[trigger] stack@[t]).0.0)
                        && flags[stack@[t].0.0] == stack@[t].1,
                forall|x: u32|
                    #[trigger] visited@.contains(x) ==> call_ensures(
                        *predicate,
                        (GoalId(owner[x]), flags[owner[x]], GoalId(x), &m[x]),
                        flags[x],
                    ),
                forall|x: u32|
                    #[trigger] matching@.contains(x) <==> visited@.contains(x) && flags[x],
            decreases n - i,
        {
            let child_id = cur_goal.children[i];
            proof {
                assert(kids[i as int] == child_id.0);
                assert(m.dom().contains(kids[i as int]) && kids[i as int] > cur.0);
                assert(m[cur.0].child_ids().contains(child_id.0));
                if cur.0 != root {
                    lemma_reaches_in_dom(m, root, cur.0);
                }
                assert(child_id.0 > root);
                if visited@.contains(child_id.0) {
                    if pre_visited.contains(child_id.0) {
                        let e = pre_owner[child_id.0];
                        assert(pre_expanded.contains(e));
                        assert(m[e].child_ids().contains(child_id.0));
                        assert(e == cur.0);
                        assert(false);
                    } else {
                        assert(kids.take(i as int).to_set().contains(child_id.0));
                        let t = choose|t: int|
                            0 <= t < kids.take(i as int).len() && kids.take(i as int)[t]
                                == child_id.0;
                        assert(kids[t] == child_id.0);
                        assert(m[cur.0].child_ids().no_duplicates());
                        assert(false);
                    }
                }
                if cur.0 == root {
                    lemma_reaches_child(m, cur.0, child_id.0);
                } else {
                    lemma_reaches_extend(m, root, cur.0, child_id.0);
                }
                assert(cur.0 != child_id.0);
            }
            let child = goals.get(child_id.0).unwrap();
            let verdict = predicate(cur, cur_flag, child_id, child);
            let ghost mid_visited = visited@;
            let ghost mid_stack = stack@;
            visited.insert(child_id.0);
            if verdict {
                matching.insert(child_id.0);
            }
            stack.push((child_id, verdict));
            proof {
                assert(visited@ == mid_visited.insert(child_id.0));
                assert(stack@ == mid_stack.push((child_id, verdict)));
                assert(!pending.contains(child_id.0));
                pending = pending.insert(child_id.0);
                owner = owner.insert(child_id.0, cur.0);
                flags = flags.insert(child_id.0, verdict);
                lemma_len_subset(visited@, m.dom());
                lemma_to_set_push(kids.take(i as int), kids[i as int]);
                assert(kids.take(i as int + 1) == kids.take(i as int).push(kids[i as int]));
                assert(visited@ =~= pre_visited.union(kids.take(i as int + 1).to_set()));
                assert(stack@[stack@.len() - 1].0.0 == child_id.0);
                assert(GoalId(child_id.0) == child_id);
                assert(GoalId(cur.0) == cur);
                assert(*child == m[child_id.0]);
            }
            i = i + 1;
        }
        proof {
            assert forall|x: u32| #[trigger] expanded.contains(x) implies m.dom().contains(x) && (
            forall|c: u32| #[trigger] m[x].child_ids().contains(c) ==> visited@.contains(c)) by {
                if x == cur.0 {
                    assert forall|c: u32| #[trigger] m[x].child_ids().contains(c) implies
                        visited@.contains(c) by {
                        let t = choose|t: int|
                            0 <= t < m[x].child_ids().len() && m[x].child_ids()[t] == c;
                        assert(kids[t] == c);
                    }
                }
            }
            lemma_len_subset(visited@, m.dom());
            if n == 0 {
                assert(visited@.len() == pre_visited.len());
                assert(stack@.len() == pre_stack_with_cur.len() - 1);
            } else {
                assert(visited@.len() > pre_visited.len());
            }
        }
    }
    proof {
        assert(pending.len() == 0);
        assert(pending =~= Set::<u32>::empty());
        assert(expanded.contains(root));
        assert forall|c: u32| #[trigger] m[root].child_ids().contains(c) implies visited@.contains(
            c,
        ) by {}
        assert forall|x: u32, c: u32|
            visited@.contains(x) && #[trigger] m[x].child_ids().contains(c) implies
            visited@.contains(c) by {
            assert(expanded.contains(x));
        }
        lemma_closed_set_contains_descendants(m, root, visited@);
        assert forall|x: u32| #[trigger] descendants(m, root).contains(x) implies visited@.contains(
            x,
        ) by {
            assert(reaches(m, root, x));
        }
        assert(visited@ =~= descendants(m, root));
        // The recorded flags witness the contract.
        assert forall|k: u32, c: u32|
            (k == root || descendants(m, root).contains(k)) && m.dom().contains(k)
                && #[trigger] m[k].child_ids().contains(c) implies call_ensures(
            *predicate,
            (GoalId(k), flags[k], GoalId(c), &m[c]),
            flags[c],
        ) by {
            assert(expanded.contains(k));
            assert(visited@.contains(c));
            assert(owner[c] == k);
        }
        assert(matching@ =~= Set::new(|x: u32| descendants(m, root).contains(x) && flags[x]));
    }
    Some(matching)
}


/// `b` is `a` with the node at `p[i..]` replaced by `v`.
pub open spec fn pg_node_replaced(
    a: PopulatedGoal,
    b: PopulatedGoal,
    p: Seq<usize>,
    i: int,
    v: PopulatedGoal,
) -> bool
    decreases p.len() - i,
{
    if i >= p.len() {
        b == v
    } else {
        pg_fields_eq(a, b) && a.max_child_layer_width == b.max_child_layer_width
            && a.max_child_depth == b.max_child_depth && i >= 0 && (p[i] as int)
            < a.children@.len() && b.children@.len() == a.children@.len() && (forall|j: int|
            0 <= j < a.children@.len() && j != p[i] as int ==> #[trigger] b.children@[j]
                == a.children@[j]) && pg_node_replaced(
            a.children@[p[i] as int],
            b.children@[p[i] as int],
            p,
            i + 1,
            v,
        )
    }
}

/// Follow a child-index path downward from a snapshot node; nothing if the
/// path leaves the tree.
pub fn traverse_populated_goal_children<'a>(
    root_goal: &'a PopulatedGoal,
    goal_child_index_path: &Vec<usize>,
) -> (r: Option<&'a PopulatedGoal>)
    ensures
        match r {
            Some(g) => pg_path_valid(*root_goal, goal_child_index_path@, 0) && *g == pg_node_at(
                *root_goal,
                goal_child_index_path@,
                0,
            ),
            None => !pg_path_valid(*root_goal, goal_child_index_path@, 0),
        },
{
    traverse_from(root_goal, goal_child_index_path, 0)
}

fn traverse_from<'a>(t: &'a PopulatedGoal, path: &Vec<usize>, i: usize) -> (r: Option<
    &'a PopulatedGoal,
>)
    requires
        i <= path@.len(),
    ensures
        match r {
            Some(g) => pg_path_valid(*t, path@, i as int) && *g == pg_node_at(*t, path@, i as int),
            None => !pg_path_valid(*t, path@, i as int),
        },
    decreases path@.len() - i,
{
    if i == path.len() {
        Some(t)
    } else {
        let idx = path[i];
        if idx < t.children.len() {
            traverse_from(&t.children[idx], path, i + 1)
        } else {
            None
        }
    }
}

/// Follow a child-index path downward, mutably; nothing if the path leaves
/// the tree.  The final tree is the old one with the reached node replaced
/// by whatever the caller leaves behind the reference.
pub fn traverse_populated_goal_children_mut<'a>(
    root_goal: &'a mut PopulatedGoal,
    goal_child_index_path: &Vec<usize>,
) -> (r: Option<&'a mut PopulatedGoal>)
    ensures
        match r {
            Some(g) => pg_path_valid(*old(root_goal), goal_child_index_path@, 0) && *g
                == pg_node_at(*old(root_goal), goal_child_index_path@, 0) && pg_node_replaced(
                *old(root_goal),
                *final(root_goal),
                goal_child_index_path@,
                0,
                *final(g),
            ),
            None => !pg_path_valid(*old(root_goal), goal_child_index_path@, 0) && *final(root_goal) == *old(root_goal),
        },
{
    if populated_path_is_valid(root_goal, goal_child_index_path) {
        Some(traverse_from_mut(root_goal, goal_child_index_path, 0))
    } else {
        None
    }
}

/// Whether a child-index path stays inside the tree.
pub fn populated_path_is_valid(t: &PopulatedGoal, path: &Vec<usize>) -> (b: bool)
    ensures
        b == pg_path_valid(*t, path@, 0),
{
    match traverse_from(t, path, 0) {
        Some(_) => true,
        None => false,
    }
}

fn traverse_from_mut<'a>(t: &'a mut PopulatedGoal, path: &Vec<usize>, i: usize) -> (r:
    &'a mut PopulatedGoal)
    requires
        i <= path@.len(),
        pg_path_valid(*old(t), path@, i as int),
    ensures
        *r == pg_node_at(*old(t), path@, i as int),
        pg_node_replaced(*old(t), *final(t), path@, i as int, *final(r)),
    decreases path@.len() - i,
{
    if i == path.len() {
        t
    } else {
        let idx = path[i];
        traverse_from_mut(&mut t.children[idx], path, i + 1)
    }
}


/// Total node count of the subtrees that a stack of paths points at.
pub open spec fn paths_count_sum(t: PopulatedGoal, s: Seq<Seq<usize>>) -> nat
    decreases s.len(),
{
    if s.len() == 0 {
        0
    } else {
        paths_count_sum(t, s.drop_last()) + pg_count(pg_node_at(t, s.last(), 0))
    }
}

proof fn lemma_paths_count_sum_push(t: PopulatedGoal, s: Seq<Seq<usize>>, p: Seq<usize>)
    ensures
        paths_count_sum(t, s.push(p)) == paths_count_sum(t, s) + pg_count(pg_node_at(t, p, 0)),
{
    assert(s.push(p).drop_last() =~= s);
    assert(s.push(p).last() == p);
}

proof fn lemma_pg_count_pos(t: PopulatedGoal)
    ensures
        pg_count(t) >= 1,
{
    lemma_pg_count_seq_nonneg(t.children@);
}

proof fn lemma_paths_count_lower(t: PopulatedGoal, s: Seq<Seq<usize>>)
    ensures
        paths_count_sum(t, s) >= s.len(),
    decreases s.len(),
{
    if s.len() > 0 {
        lemma_paths_count_lower(t, s.drop_last());
        lemma_pg_count_pos(pg_node_at(t, s.last(), 0));
    }
}

/// Walk every strictly-deeper node of a populated tree, depth first with an
/// explicit stack, threading an accumulator from parent to child.  The
/// visitor receives the parent's path and accumulator and the child's path
/// and node; the walk returns the visited paths: one per non-root node,
/// each exactly once, covering the whole tree.
#[verifier::rlimit(100)]
pub fn visit_populated_goal_children<V, VF: Fn(&Vec<usize>, &V, &Vec<usize>, &PopulatedGoal) -> V>(
    goal: &PopulatedGoal,
    v: &VF,
    root_visitor_data: V,
) -> (r: Vec<Vec<usize>>)
    requires
        forall|a: Vec<usize>, b: V, c: Vec<usize>, d: PopulatedGoal|
            call_requires(*v, (&a, &b, &c, &d)),
    ensures
        r@.len() + 1 == pg_count(*goal),
        forall|t: int|
            0 <= t < r@.len() ==> pg_path_valid(*goal, (#[trigger] r@[t])@, 0) && r@[t]@.len()
                > 0,
        forall|t: int, u: int| 0 <= t < u < r@.len() ==> (#[trigger] r@[t])@ != (#[trigger] r@[u])@,
        forall|q: Seq<usize>|
            pg_path_valid(*goal, q, 0) && q.len() > 0 ==> exists|t: int|
                0 <= t < r@.len() && (#[trigger] r@[t])@ == q,
{
    let mut results: Vec<Vec<usize>> = Vec::new();
    let empty_path: Vec<usize> = Vec::new();
    let mut stack: Vec<(Vec<usize>, V)> = Vec::new();
    stack.push((empty_path, root_visitor_data));
    let ghost mut pendingp: Set<Seq<usize>> = Set::<Seq<usize>>::empty().insert(Seq::empty());
    proof {
        let ps = stack@.map_values(|e: (Vec<usize>, V)| e.0@);
        assert(ps.len() == 1);
        assert(paths_count_sum(*goal, ps.drop_last()) == 0) by {
            assert(ps.drop_last().len() == 0);
        }
        assert(ps.last() == stack@[0].0@);
        assert(ps.last().len() == 0);
        assert(pg_node_at(*goal, ps.last(), 0) == *goal);
        assert(paths_count_sum(*goal, ps) == pg_count(*goal));
        lemma_pg_count_pos(*goal);
        assert(pendingp.contains(stack@[0].0@)) by {
            assert(stack@[0].0@ =~= Seq::<usize>::empty());
        }
        assert forall|q: Seq<usize>|
            pg_path_valid(*goal, q, 0) && q.len() > 0 implies (exists|t: int|
            0 <= t < results@.len() && (#[trigger] results@[t])@ == q) || (exists|p: Seq<usize>|
            #[trigger] pendingp.contains(p) && seq_proper_prefix(p, q)) by {
            let e = Seq::<usize>::empty();
            assert(pendingp.contains(e));
            assert(e =~= q.take(0));
            assert(seq_proper_prefix(e, q));
        }
    }
    while stack.len() > 0
        invariant
            forall|a: Vec<usize>, b: V, c: Vec<usize>, d: PopulatedGoal|
                call_requires(*v, (&a, &b, &c, &d)),
            forall|t: int|
                0 <= t < stack@.len() ==> pg_path_valid(*goal, (#[trigger] stack@[t]).0@, 0)
                    && pendingp.contains(stack@[t].0@),
            forall|t: int, u: int|
                0 <= t < u < stack@.len() ==> (#[trigger] stack@[t]).0@ != (
                #[trigger] stack@[u]).0@,
            pendingp.finite(),
            pendingp.len() == stack@.len(),
            forall|p1: Seq<usize>, p2: Seq<usize>|
                #[trigger] pendingp.contains(p1) && #[trigger] pendingp.contains(p2) && p1 != p2
                    ==> !seq_proper_prefix(p1, p2),
            forall|t: int|
                0 <= t < results@.len() ==> pg_path_valid(*goal, (#[trigger] results@[t])@, 0)
                    && results@[t]@.len() > 0,
            forall|t: int, u: int|
                0 <= t < u < results@.len() ==> (#[trigger] results@[t])@ != (
                #[trigger] results@[u])@,
            forall|t: int, p: Seq<usize>|
                0 <= t < results@.len() && #[trigger] pendingp.contains(p) ==> !seq_proper_prefix(
                    p,
                    (#[trigger] results@[t])@,
                ),
            forall|q: Seq<usize>|
                pg_path_valid(*goal, q, 0) && q.len() > 0 ==> (exists|t: int|
                    0 <= t < results@.len() && (#[trigger] results@[t])@ == q) || (exists|
                    p: Seq<usize>,
                | #[trigger] pendingp.contains(p) && seq_proper_prefix(p, q)),
            pg_count(*goal) + stack@.len() == results@.len() + 1 + paths_count_sum(
                *goal,
                stack@.map_values(|e: (Vec<usize>, V)| e.0@),
            ),
        decreases paths_count_sum(*goal, stack@.map_values(|e: (Vec<usize>, V)| e.0@)),
    {
        let ghost pre_stack_paths = stack@.map_values(|e: (Vec<usize>, V)| e.0@);
        let ghost pre_results_len = results@.len();
        let (current_path, current_visitor_data) = stack.pop().unwrap();
        let ghost base_paths = stack@.map_values(|e: (Vec<usize>, V)| e.0@);
        let ghost cur_node = pg_node_at(*goal, current_path@, 0);
        let ghost pre_pendingp = pendingp;
        proof {
            assert(base_paths =~= pre_stack_paths.drop_last());
            assert(pre_stack_paths.last() == current_path@);
            assert(pendingp.contains(current_path@));
            pendingp = pendingp.remove(current_path@);
            assert forall|t: int| 0 <= t < stack@.len() implies pendingp.contains(
                (#[trigger] stack@[t]).0@,
            ) by {
                assert(stack@[t].0@ != current_path@);
            }
            assert(paths_count_sum(*goal, pre_stack_paths) == paths_count_sum(*goal, base_paths)
                + pg_count(cur_node));
        }
        let current_goal = match traverse_from(goal, &current_path, 0) {
            Some(g) => g,
            None => {
                proof {
                    assert(false);
                }
                goal
            },
        };
        let n = current_goal.children.len();
        let mut child_index: usize = 0;
        proof {
            assert(cur_node.children@.take(0) =~= Seq::<PopulatedGoal>::empty());
        }
        while child_index < n
            invariant
                forall|a: Vec<usize>, b: V, c: Vec<usize>, d: PopulatedGoal|
                    call_requires(*v, (&a, &b, &c, &d)),
                cur_node == pg_node_at(*goal, current_path@, 0),
                pg_path_valid(*goal, current_path@, 0),
                *current_goal == cur_node,
                n == current_goal.children@.len(),
                child_index <= n,
                pre_pendingp.contains(current_path@),
                forall|p1: Seq<usize>, p2: Seq<usize>|
                    #[trigger] pre_pendingp.contains(p1) && #[trigger] pre_pendingp.contains(p2)
                        && p1 != p2 ==> !seq_proper_prefix(p1, p2),
                pendingp == pre_pendingp.remove(current_path@).union(
                    Set::new(
                        |pp: Seq<usize>|
                            exists|u: int|
                                0 <= u < child_index && pp == #[trigger] current_path@.push(
                                    u as usize,
                                ),
                    ),
                ),
                forall|t: int|
                    0 <= t < stack@.len() ==> pg_path_valid(*goal, (#[trigger] stack@[t]).0@, 0)
                        && pendingp.contains(stack@[t].0@),
                forall|t: int, u: int|
                    0 <= t < u < stack@.len() ==> (#[trigger] stack@[t]).0@ != (
                    #[trigger] stack@[u]).0@,
                pendingp.finite(),
                pendingp.len() == stack@.len(),
                forall|p1: Seq<usize>, p2: Seq<usize>|
                    #[trigger] pendingp.contains(p1) && #[trigger] pendingp.contains(p2) && p1
                        != p2 ==> !seq_proper_prefix(p1, p2),
                forall|t: int|
                    0 <= t < results@.len() ==> pg_path_valid(*goal, (#[trigger] results@[t])@, 0)
                        && results@[t]@.len() > 0,
                forall|t: int, u: int|
                    0 <= t < u < results@.len() ==> (#[trigger] results@[t])@ != (
                    #[trigger] results@[u])@,
                forall|t: int|
                    0 <= t < pre_results_len ==> !seq_proper_prefix(
                        current_path@,
                        (#[trigger] results@[t])@,
                    ),
                forall|t: int|
                    pre_results_len <= t < results@.len() ==> (#[trigger] results@[t])@
                        == current_path@.push((t - pre_results_len) as usize),
                results@.len() == pre_results_len + child_index,
                forall|t: int, p: Seq<usize>|
                    0 <= t < results@.len() && #[trigger] pendingp.contains(p)
                        ==> !seq_proper_prefix(p, (#[trigger] results@[t])@),
                forall|q: Seq<usize>|
                    pg_path_valid(*goal, q, 0) && q.len() > 0 ==> (exists|t: int|
                        0 <= t < results@.len() && (#[trigger] results@[t])@ == q) || (exists|
                        p: Seq<usize>,
                    | #[trigger] pendingp.contains(p) && seq_proper_prefix(p, q)) || (
                    seq_proper_prefix(current_path@, q) && q[current_path@.len() as int]
                        >= child_index),
                stack@.len() == base_paths.len() + child_index,
                paths_count_sum(*goal, stack@.map_values(|e: (Vec<usize>, V)| e.0@))
                    == paths_count_sum(*goal, base_paths) + pg_count_seq(
                    cur_node.children@.take(child_index as int),
                ),
            decreases n - child_index,
        {
            let mut child_index_path = copy_path(&current_path);
            child_index_path.push(child_index);
            let ghost cp = child_index_path@;
            let child_goal = &current_goal.children[child_index];
            proof {
                lemma_path_push(*goal, current_path@, 0, child_index);
                assert(cp == current_path@.push(child_index));
                assert(pg_node_at(*goal, cp, 0) == cur_node.children@[child_index as int]);
                assert(seq_proper_prefix(current_path@, cp)) by {
                    assert(current_path@ =~= cp.take(current_path@.len() as int));
                }
            }
            let child_visitor_data = v(
                &current_path,
                &current_visitor_data,
                &child_index_path,
                child_goal,
            );
            let path_copy = copy_path(&child_index_path);
            let ghost pre_results = results@;
            results.push(path_copy);
            let ghost mid_paths = stack@.map_values(|e: (Vec<usize>, V)| e.0@);
            let ghost mid_pendingp = pendingp;
            stack.push((child_index_path, child_visitor_data));
            proof {
                assert(!mid_pendingp.contains(cp)) by {
                    if pre_pendingp.remove(current_path@).contains(cp) {
                        assert(seq_proper_prefix(current_path@, cp));
                    }
                    if !pre_pendingp.remove(current_path@).contains(cp) && mid_pendingp.contains(
                        cp,
                    ) {
                        let u = choose|u: int|
                            0 <= u < child_index && cp == #[trigger] current_path@.push(
                                u as usize,
                            );
                        assert(cp[current_path@.len() as int] == u as usize);
                        assert(cp[current_path@.len() as int] == child_index as usize);
                    }
                }
                pendingp = pendingp.insert(cp);
                assert(stack@.map_values(|e: (Vec<usize>, V)| e.0@) =~= mid_paths.push(cp));
                lemma_paths_count_sum_push(*goal, mid_paths, cp);
                assert(cur_node.children@.take(child_index as int + 1)
                    =~= cur_node.children@.take(child_index as int).push(
                    cur_node.children@[child_index as int],
                ));
                lemma_pg_count_seq_push(
                    cur_node.children@.take(child_index as int),
                    cur_node.children@[child_index as int],
                );
                assert(pendingp =~= pre_pendingp.remove(current_path@).union(
                    Set::new(
                        |pp: Seq<usize>|
                            exists|u: int|
                                0 <= u < child_index + 1 && pp == #[trigger] current_path@.push(
                                    u as usize,
                                ),
                    ),
                )) by {
                    assert forall|x: Seq<usize>| #[trigger] pendingp.contains(x) implies
                        pre_pendingp.remove(current_path@).contains(x) || (exists|u: int|
                        0 <= u < child_index + 1 && x == #[trigger] current_path@.push(
                            u as usize,
                        )) by {
                        if x == cp {
                            assert(cp == current_path@.push((child_index as int) as usize));
                        }
                    }
                    assert forall|x: Seq<usize>|
                        pre_pendingp.remove(current_path@).contains(x) || (exists|u: int|
                            0 <= u < child_index + 1 && x == #[trigger] current_path@.push(
                                u as usize,
                            )) implies #[trigger] pendingp.contains(x) by {
                        if !pre_pendingp.remove(current_path@).contains(x) {
                            let u = choose|u: int|
                                0 <= u < child_index + 1 && x == #[trigger] current_path@.push(
                                    u as usize,
                                );
                            if u < child_index {
                            } else {
                                assert(x == cp);
                            }
                        }
                    }
                }
                assert forall|p1: Seq<usize>, p2: Seq<usize>|
                    #[trigger] pendingp.contains(p1) && #[trigger] pendingp.contains(p2) && p1
                        != p2 implies !seq_proper_prefix(p1, p2) by {
                    if p1 == cp || p2 == cp {
                        let other = if p1 == cp { p2 } else { p1 };
                        if !pre_pendingp.remove(current_path@).contains(other) && other != cp {
                            let u = choose|u: int|
                                0 <= u < child_index && other == #[trigger] current_path@.push(
                                    u as usize,
                                );
                            assert(other.len() == cp.len());
                        }
                        if pre_pendingp.remove(current_path@).contains(other) {
                            if seq_proper_prefix(other, cp) {
                                assert(other.len() <= current_path@.len());
                                assert forall|d: int| 0 <= d < other.len() implies
                                    current_path@[d] == other[d] by {
                                    assert(other[d] == cp.take(other.len() as int)[d]);
                                }
                                assert(other =~= current_path@.take(other.len() as int));
                                assert(other != current_path@ ==> seq_proper_prefix(
                                    other,
                                    current_path@,
                                ));
                            }
                            if seq_proper_prefix(cp, other) {
                                assert(seq_proper_prefix(current_path@, other)) by {
                                    lemma_prefix_trans(current_path@, cp, other);
                                }
                            }
                        }
                    }
                }
                // The new result entry is fresh.
                assert forall|t: int, u: int|
                    0 <= t < u < results@.len() implies (#[trigger] results@[t])@ != (
                    #[trigger] results@[u])@ by {
                    if u == results@.len() - 1 {
                        if t < pre_results_len {
                            assert(!seq_proper_prefix(current_path@, results@[t]@));
                        } else {
                            assert(results@[t]@ == current_path@.push(
                                (t - pre_results_len) as usize,
                            ));
                        }
                    }
                }
                // Results stay clear of every pending subtree.
                assert forall|t: int, p: Seq<usize>|
                    0 <= t < results@.len() && #[trigger] pendingp.contains(p) implies
                    !seq_proper_prefix(p, (#[trigger] results@[t])@) by {
                    if seq_proper_prefix(p, results@[t]@) {
                        let q = results@[t]@;
                        if p == cp {
                            if t < pre_results_len {
                                assert(seq_proper_prefix(current_path@, q)) by {
                                    lemma_prefix_trans(current_path@, cp, q);
                                }
                            } else {
                                assert(q == current_path@.push((t - pre_results_len) as usize));
                                assert(p.len() == q.len());
                            }
                        } else {
                            assert(mid_pendingp.contains(p));
                            if t == results@.len() - 1 {
                                assert(q == cp);
                                if pre_pendingp.remove(current_path@).contains(p) {
                                    assert(p.len() <= current_path@.len());
                                    assert forall|d: int| 0 <= d < p.len() implies
                                        current_path@[d] == p[d] by {
                                        assert(p[d] == cp.take(p.len() as int)[d]);
                                    }
                                    assert(p =~= current_path@.take(p.len() as int));
                                    if p != current_path@ {
                                        assert(seq_proper_prefix(p, current_path@));
                                    }
                                } else {
                                    let u = choose|u: int|
                                        0 <= u < child_index && p
                                            == #[trigger] current_path@.push(u as usize);
                                    assert(p.len() == q.len());
                                }
                            } else {
                                assert(results@[t] == pre_results[t]);
                            }
                        }
                    }
                }
                // Coverage is kept.
                assert forall|q: Seq<usize>|
                    pg_path_valid(*goal, q, 0) && q.len() > 0 implies (exists|t: int|
                    0 <= t < results@.len() && (#[trigger] results@[t])@ == q) || (exists|
                    p: Seq<usize>,
                | #[trigger] pendingp.contains(p) && seq_proper_prefix(p, q)) || (
                seq_proper_prefix(current_path@, q) && q[current_path@.len() as int]
                    >= child_index + 1) by {
                    if exists|t: int|
                        0 <= t < pre_results.len() && (#[trigger] pre_results[t])@ == q {
                        let t0 = choose|t: int|
                            0 <= t < pre_results.len() && (#[trigger] pre_results[t])@ == q;
                        assert(results@[t0] == pre_results[t0]);
                        assert(results@[t0]@ == q);
                    } else if exists|p: Seq<usize>|
                        #[trigger] mid_pendingp.contains(p) && seq_proper_prefix(p, q) {
                        let p0 = choose|p: Seq<usize>|
                            #[trigger] mid_pendingp.contains(p) && seq_proper_prefix(p, q);
                        assert(pendingp.contains(p0));
                    } else {
                        assert(seq_proper_prefix(current_path@, q)
                            && q[current_path@.len() as int] >= child_index);
                        if q[current_path@.len() as int] == child_index as usize {
                            if q.len() == current_path@.len() + 1 {
                                assert(q =~= cp);
                                assert(results@[results@.len() - 1]@ == q);
                            } else {
                                assert(seq_proper_prefix(cp, q)) by {
                                    assert forall|d: int| 0 <= d < cp.len() implies q[d]
                                        == cp[d] by {
                                        if d < current_path@.len() {
                                            assert(current_path@[d] == q.take(
                                                current_path@.len() as int,
                                            )[d]);
                                        }
                                    }
                                    assert(cp =~= q.take(cp.len() as int));
                                }
                                assert(pendingp.contains(cp));
                            }
                        }
                    }
                }
            }
            child_index = child_index + 1;
        }
        proof {
            assert(cur_node.children@.take(n as int) =~= cur_node.children@);
            lemma_paths_count_lower(*goal, stack@.map_values(|e: (Vec<usize>, V)| e.0@));
            // The popped node's subtree stays covered through its children.
            assert forall|q: Seq<usize>|
                pg_path_valid(*goal, q, 0) && q.len() > 0 implies (exists|t: int|
                0 <= t < results@.len() && (#[trigger] results@[t])@ == q) || (exists|
                p: Seq<usize>,
            | #[trigger] pendingp.contains(p) && seq_proper_prefix(p, q)) by {
                if seq_proper_prefix(current_path@, q) && q[current_path@.len() as int] >= n {
                    lemma_valid_path_prefix(*goal, q, 0, current_path@.len() as int);
                    assert(q.take(current_path@.len() as int) =~= current_path@);
                    assert((q[current_path@.len() as int] as int) < pg_node_at(
                        *goal,
                        q.take(current_path@.len() as int),
                        0,
                    ).children@.len());
                    assert(false);
                }
            }
        }
    }
    proof {
        assert forall|q: Seq<usize>|
            pg_path_valid(*goal, q, 0) && q.len() > 0 implies exists|t: int|
            0 <= t < results@.len() && (#[trigger] results@[t])@ == q by {
            if exists|p: Seq<usize>| #[trigger] pendingp.contains(p) && seq_proper_prefix(p, q) {
                let p0 = choose|p: Seq<usize>|
                    #[trigger] pendingp.contains(p) && seq_proper_prefix(p, q);
                assert(false) by {
                    assert(forall|t: int|
                        0 <= t < stack@.len() ==> pendingp.contains((#[trigger] stack@[t]).0@));
                }
            }
        }
    }
    results
}


/// A populated subtree together with the classification of every visited
/// descendant: `(parent path, child id)` pairs that satisfy the predicate,
/// and those that do not.  The classification carries no layout metrics.
pub struct PartitionedPopulatedTree {
    pub populated_tree: PopulatedGoal,
    pub satisfies_predicate: Vec<(Vec<usize>, GoalId)>,
    pub does_not_satisfy_predicate: Vec<(Vec<usize>, GoalId)>,
}

/// Every recorded `(path, id)` pair locates its parent: the path leads to a
/// node of the snapshot whose goal holds the paired id among its children.
pub open spec fn pairs_locate(
    m: Map<u32, Goal>,
    tree: PopulatedGoal,
    prs: Seq<(Vec<usize>, GoalId)>,
) -> bool {
    forall|t: int|
        0 <= t < prs.len() ==> {
            let pr = #[trigger] prs[t];
            &&& pg_path_valid(tree, pr.0@, 0)
            &&& m.contains_key(pg_node_at(tree, pr.0@, 0).id.0)
            &&& m[pg_node_at(tree, pr.0@, 0).id.0].child_ids().contains(pr.1.0)
        }
}

/// Build the nested snapshot of the subtree below `goal_id` (metrics left
/// at zero) while partitioning the visited descendants by a predicate.
/// Returns nothing if `goal_id` is not in the map.
#[verifier::rlimit(100)]
pub fn populate_partitioned_goal_tree<P: Fn(GoalId, &Goal) -> bool>(
    goals: &IdMap<Goal>,
    goal_id: GoalId,
    predicate: &P,
) -> (r: Option<PartitionedPopulatedTree>)
    requires
        goals.wf(),
        forest_wf(goals@),
        forall|a: GoalId, g: Goal| call_requires(*predicate, (a, &g)),
    ensures
        match r {
            Some(p) => {
                &&& goals@.contains_key(goal_id.0)
                &&& pg_matches(goals@, p.populated_tree)
                &&& pg_metrics_zero(p.populated_tree)
                &&& p.populated_tree.id == goal_id
                &&& forall|t: int|
                    0 <= t < p.satisfies_predicate@.len() ==> descendants(
                        goals@,
                        goal_id.0,
                    ).contains((#[trigger] p.satisfies_predicate@[t]).1.0) && call_ensures(
                        *predicate,
                        (p.satisfies_predicate@[t].1, &goals@[p.satisfies_predicate@[t].1.0]),
                        true,
                    )
                &&& forall|t: int|
                    0 <= t < p.does_not_satisfy_predicate@.len() ==> descendants(
                        goals@,
                        goal_id.0,
                    ).contains((#[trigger] p.does_not_satisfy_predicate@[t]).1.0) && call_ensures(
                        *predicate,
                        (
                            p.does_not_satisfy_predicate@[t].1,
                            &goals@[p.does_not_satisfy_predicate@[t].1.0],
                        ),
                        false,
                    )
                &&& pairs_locate(goals@, p.populated_tree, p.satisfies_predicate@)
                &&& pairs_locate(goals@, p.populated_tree, p.does_not_satisfy_predicate@)
                &&& forall|x: u32|
                    #[trigger] descendants(goals@, goal_id.0).contains(x) ==> (exists|t: int|
                        0 <= t < p.satisfies_predicate@.len() && (
                        #[trigger] p.satisfies_predicate@[t]).1.0 == x) || (exists|t: int|
                        0 <= t < p.does_not_satisfy_predicate@.len() && (
                        #[trigger] p.does_not_satisfy_predicate@[t]).1.0 == x)
            },
            None => !goals@.contains_key(goal_id.0),
        },
{
    let ghost m = goals@;
    let root = goal_id.0;
    let root_goal = match goals.get(root) {
        Some(g) => g,
        None => {
            return None;
        },
    };
    proof {
        goals.lemma_view();
    }
    let parent_goal_id = get_goal_parent_id(goals, goal_id);
    let mut tree = populated_goal_traversal_template(goal_id, root_goal, parent_goal_id);
    let mut passing_children: Vec<(Vec<usize>, GoalId)> = Vec::new();
    let mut failing_children: Vec<(Vec<usize>, GoalId)> = Vec::new();
    let mut visited = IdSet::new();
    let mut stack: Vec<(GoalId, Vec<usize>)> = Vec::new();
    let empty_path: Vec<usize> = Vec::new();
    stack.push((goal_id, empty_path));
    let ghost mut expanded: Set<u32> = Set::empty();
    let ghost mut pending: Set<u32> = Set::empty().insert(root);
    let ghost mut owner: Map<u32, u32> = Map::empty();
    let ghost mut pendpaths: Set<Seq<usize>> = Set::<Seq<usize>>::empty().insert(Seq::empty());
    proof {
        assert(pg_count_seq(tree.children@) == 0);
        assert(pg_count(tree) == 1);
        assert(pendpaths.contains(stack@[0].1@)) by {
            assert(stack@[0].1@ =~= Seq::<usize>::empty());
        }
        assert(pg_partial(m, tree, pendpaths, Seq::<usize>::empty()));
        assert(pendpaths.len() == 1) by {
            assert(pendpaths =~= Set::<Seq<usize>>::empty().insert(Seq::empty()));
        }
        assert forall|q: Seq<usize>| #[trigger] pendpaths.contains(q) implies pg_path_valid(
            tree,
            q,
            0,
        ) && pg_node_at(tree, q, 0).children@.len() == 0 by {
            assert(q =~= Seq::<usize>::empty());
        }
    }
    while stack.len() > 0
        invariant
            goals.wf(),
            m == goals@,
            forest_wf(m),
            m.contains_key(root),
            m.dom().finite(),
            visited.wf(),
            forall|a: GoalId, g: Goal| call_requires(*predicate, (a, &g)),
            forall|x: u32|
                #[trigger] visited@.contains(x) ==> reaches(m, root, x) && m.dom().contains(x),
            forall|t: int|
                0 <= t < stack@.len() ==> m.dom().contains((#[trigger] stack@[t]).0.0) && (
                stack@[t].0.0 == root || visited@.contains(stack@[t].0.0)),
            forall|t: int, u: int|
                0 <= t < u < stack@.len() ==> (#[trigger] stack@[t]).0.0 != (
                #[trigger] stack@[u]).0.0,
            forall|t: int| 0 <= t < stack@.len() ==> pending.contains((#[trigger] stack@[t]).0.0),
            pending.finite(),
            pending.len() == stack@.len(),
            forall|x: u32| #[trigger] pending.contains(x) ==> !expanded.contains(x),
            forall|x: u32| #[trigger] pending.contains(x) ==> x == root || visited@.contains(x),
            forall|x: u32| #[trigger] expanded.contains(x) ==> x == root || visited@.contains(x),
            expanded.contains(root) || pending.contains(root),
            forall|x: u32|
                #[trigger] visited@.contains(x) ==> expanded.contains(x) || pending.contains(x),
            forall|x: u32|
                #[trigger] expanded.contains(x) ==> m.dom().contains(x) && (forall|c: u32|
                    #[trigger] m[x].child_ids().contains(c) ==> visited@.contains(c)),
            forall|x: u32|
                #[trigger] visited@.contains(x) ==> owner.dom().contains(x) && expanded.contains(
                    owner[x],
                ) && m.dom().contains(owner[x]) && m[owner[x]].child_ids().contains(x),
            visited@.len() == visited.item_seq().len(),
            visited@.finite(),
            visited@.subset_of(m.dom()),
            visited@.len() <= m.dom().len(),
            pg_partial(m, tree, pendpaths, Seq::<usize>::empty()),
            tree.id == goal_id,
            forall|t: int|
                0 <= t < stack@.len() ==> pg_path_valid(tree, (#[trigger] stack@[t]).1@, 0)
                    && pg_node_at(tree, stack@[t].1@, 0).id == stack@[t].0 && pendpaths.contains(
                    stack@[t].1@,
                ),
            forall|q: Seq<usize>|
                #[trigger] pendpaths.contains(q) ==> pg_path_valid(tree, q, 0) && pg_node_at(
                    tree,
                    q,
                    0,
                ).children@.len() == 0,
            pendpaths.finite(),
            pendpaths.len() == stack@.len(),
            pg_metrics_zero(tree),
            pairs_locate(m, tree, passing_children@),
            pairs_locate(m, tree, failing_children@),
            forall|t: int|
                0 <= t < passing_children@.len() ==> visited@.contains(
                    (#[trigger] passing_children@[t]).1.0,
                ) && call_ensures(
                    *predicate,
                    (passing_children@[t].1, &m[passing_children@[t].1.0]),
                    true,
                ),
            forall|t: int|
                0 <= t < failing_children@.len() ==> visited@.contains(
                    (#[trigger] failing_children@[t]).1.0,
                ) && call_ensures(
                    *predicate,
                    (failing_children@[t].1, &m[failing_children@[t].1.0]),
                    false,
                ),
            forall|x: u32|
                #[trigger] visited@.contains(x) ==> (exists|t: int|
                    0 <= t < passing_children@.len() && (#[trigger] passing_children@[t]).1.0
                        == x) || (exists|t: int|
                    0 <= t < failing_children@.len() && (#[trigger] failing_children@[t]).1.0
                        == x),
        decreases m.dom().len() - visited@.len(), stack@.len(),
    {
        let ghost pre_visited = visited@;
        let ghost pre_stack_with_cur = stack@;
        let ghost pre_expanded = expanded;
        let ghost pre_owner = owner;
        let (cur, path) = stack.pop().unwrap();
        let ghost pre_stack = stack@;
        proof {
            assert(pre_stack_with_cur[pre_stack_with_cur.len() - 1].0.0 == cur.0);
            assert(pending.contains(cur.0));
            assert(!expanded.contains(cur.0));
            assert(cur.0 == root || visited@.contains(cur.0));
            pending = pending.remove(cur.0);
            expanded = expanded.insert(cur.0);
            assert forall|t: int| 0 <= t < stack@.len() implies pending.contains(
                (#[trigger] stack@[t]).0.0,
            ) by {
                assert(stack@[t] == pre_stack_with_cur[t]);
                assert(pre_stack_with_cur[t].0.0 != cur.0);
            }
        }
        let cur_goal = goals.get(cur.0).unwrap();
        let n = cur_goal.children.len();
        let ghost kids = cur_goal.child_ids();
        let mut templates: Vec<PopulatedGoal> = Vec::new();
        let mut j: usize = 0;
        while j < n
            invariant
                goals.wf(),
                m == goals@,
                forest_wf(m),
                m.dom().contains(cur.0),
                *cur_goal == m[cur.0],
                n == cur_goal.children@.len(),
                kids == cur_goal.child_ids(),
                j <= n,
                templates@.len() == j,
                forall|t: int|
                    0 <= t < j ==> {
                        let tp = #[trigger] templates@[t];
                        tp.id.0 == kids[t] && tp.parent_goal_id == Some(cur)
                            && tp.children@.len() == 0 && m.dom().contains(kids[t]) && tp.name@
                            == m[kids[t]].name@ && tp.effort_to_date == m[kids[t]].effort_to_date
                            && tp.effort_to_complete == m[kids[t]].effort_to_complete
                            && tp.max_child_depth == 0 && tp.max_child_layer_width == 0
                    },
            decreases n - j,
        {
            let child_id = cur_goal.children[j];
            proof {
                assert(kids[j as int] == child_id.0);
                assert(m.dom().contains(kids[j as int]));
            }
            let child = goals.get(child_id.0).unwrap();
            let tpl = populated_goal_traversal_template(child_id, child, Some(cur));
            templates.push(tpl);
            j = j + 1;
        }
        let ghost tpls = templates@;
        let ghost pre_tree = tree;
        let ghost pre_pendpaths = pendpaths;
        proof {
            assert(pendpaths.contains(path@));
            assert(pg_node_at(tree, path@, 0).children@.len() == 0);
            assert forall|t: int| 0 <= t < n implies !pendpaths.contains(
                #[trigger] path@.push(t as usize),
            ) by {
                let q = path@.push(t as usize);
                if pendpaths.contains(q) {
                    lemma_valid_path_prefix(tree, q, 0, path@.len() as int);
                    assert(q.take(path@.len() as int) =~= path@);
                }
            }
        }
        append_children_at(&mut tree, &path, 0, templates);
        proof {
            let pp = path@;
            assert(pg_appended_seq(pre_tree, tree, pp, 0, tpls));
            assert(pp.take(0) =~= Seq::<usize>::empty());
            assert(pg_node_at(pre_tree, pp, 0).id.0 == cur.0);
            lemma_append_partial(m, pre_tree, tree, pp, 0, tpls, pre_pendpaths, cur.0);
            pendpaths = pending_after_expand(pre_pendpaths, pp, n as int);
            lemma_pending_after_expand_card(pre_pendpaths, pp, n as int);
            lemma_appended_seq_at_path(pre_tree, tree, pp, 0, tpls);
            assert(pg_node_at(tree, pp, 0).children@ =~= tpls);
            assert(pg_node_at(tree, pp, 0).id == cur);
            lemma_append_metrics_zero(pre_tree, tree, pp, 0, tpls);
            assert(pairs_locate(m, tree, passing_children@)) by {
                assert forall|t: int| 0 <= t < passing_children@.len() implies {
                    let pr = #[trigger] passing_children@[t];
                    &&& pg_path_valid(tree, pr.0@, 0)
                    &&& m.contains_key(pg_node_at(tree, pr.0@, 0).id.0)
                    &&& m[pg_node_at(tree, pr.0@, 0).id.0].child_ids().contains(pr.1.0)
                } by {
                    lemma_appended_seq_old_paths(pre_tree, tree, pp, 0, tpls, passing_children@[t].0@);
                }
            }
            assert(pairs_locate(m, tree, failing_children@)) by {
                assert forall|t: int| 0 <= t < failing_children@.len() implies {
                    let pr = #[trigger] failing_children@[t];
                    &&& pg_path_valid(tree, pr.0@, 0)
                    &&& m.contains_key(pg_node_at(tree, pr.0@, 0).id.0)
                    &&& m[pg_node_at(tree, pr.0@, 0).id.0].child_ids().contains(pr.1.0)
                } by {
                    lemma_appended_seq_old_paths(pre_tree, tree, pp, 0, tpls, failing_children@[t].0@);
                }
            }
            assert forall|q: Seq<usize>| #[trigger] pre_pendpaths.contains(q) && q != pp implies
                pg_path_valid(tree, q, 0) && pg_node_at(tree, q, 0) == pg_node_at(
                pre_tree,
                q,
                0,
            ) by {
                lemma_pending_paths_diverge(pre_tree, pp, q, );
                lemma_appended_seq_elsewhere(pre_tree, tree, pp, tpls, q, 0);
            }
            assert forall|q: Seq<usize>| #[trigger] pendpaths.contains(q) implies pg_path_valid(
                tree,
                q,
                0,
            ) && pg_node_at(tree, q, 0).children@.len() == 0 by {
                if pre_pendpaths.contains(q) && q != pp {
                } else {
                    let t = choose|t: int| 0 <= t < n && q == #[trigger] pp.push(t as usize);
                    lemma_path_push(tree, pp, 0, t as usize);
                    assert(pg_node_at(tree, q, 0) == tpls[t]);
                }
            }
            assert forall|t: int| 0 <= t < stack@.len() implies pg_path_valid(
                tree,
                (#[trigger] stack@[t]).1@,
                0,
            ) && pg_node_at(tree, stack@[t].1@, 0).id == stack@[t].0 && pendpaths.contains(
                stack@[t].1@,
            ) by {
                let q = stack@[t].1@;
                assert(pre_pendpaths.contains(q));
                assert(q != pp) by {
                    if q == pp {
                        assert(pg_node_at(pre_tree, q, 0).id == stack@[t].0);
                        assert(stack@[t].0.0 == cur.0);
                        assert(pre_stack_with_cur[t].0.0 == cur.0);
                    }
                }
            }
        }
        let mut i: usize = 0;
        while i < n
            invariant
                goals.wf(),
                m == goals@,
                forest_wf(m),
                m.contains_key(root),
                m.dom().finite(),
                visited.wf(),
                forall|a: GoalId, g: Goal| call_requires(*predicate, (a, &g)),
                m.dom().contains(cur.0),
                *cur_goal == m[cur.0],
                n == cur_goal.children@.len(),
                kids == cur_goal.child_ids(),
                i <= n,
                cur.0 == root || reaches(m, root, cur.0),
                expanded == pre_expanded.insert(cur.0),
                !pre_expanded.contains(cur.0),
                visited@ == pre_visited.union(kids.take(i as int).to_set()),
                forall|x: u32|
                    #[trigger] pre_visited.contains(x) ==> pre_owner.dom().contains(x)
                        && pre_expanded.contains(pre_owner[x]) && m.dom().contains(pre_owner[x])
                        && m[pre_owner[x]].child_ids().contains(x),
                forall|x: u32|
                    #[trigger] visited@.contains(x) ==> reaches(m, root, x) && m.dom().contains(x),
                forall|t: int|
                    0 <= t < stack@.len() ==> m.dom().contains((#[trigger] stack@[t]).0.0) && (
                    stack@[t].0.0 == root || visited@.contains(stack@[t].0.0)),
                forall|t: int, u: int|
                    0 <= t < u < stack@.len() ==> (#[trigger] stack@[t]).0.0 != (
                    #[trigger] stack@[u]).0.0,
                forall|t: int| 0 <= t < stack@.len() ==> pending.contains(
                    (#[trigger] stack@[t]).0.0,
                ),
                pending.finite(),
                pending.len() == stack@.len(),
                forall|x: u32| #[trigger] pending.contains(x) ==> !expanded.contains(x),
                forall|x: u32|
                    #[trigger] pending.contains(x) ==> x == root || visited@.contains(x),
                forall|x: u32|
                    #[trigger] expanded.contains(x) ==> x == root || visited@.contains(x) || x
                        == cur.0,
                expanded.contains(root) || pending.contains(root),
                forall|x: u32|
                    #[trigger] visited@.contains(x) ==> expanded.contains(x) || pending.contains(
                        x,
                    ),
                forall|x: u32|
                    #[trigger] expanded.contains(x) && x != cur.0 ==> m.dom().contains(x) && (
                    forall|c: u32| #[trigger] m[x].child_ids().contains(c) ==> visited@.contains(c)),
                forall|t: int| 0 <= t < i ==> visited@.contains(#[trigger] kids[t]),
                forall|x: u32|
                    #[trigger] visited@.contains(x) ==> owner.dom().contains(x)
                        && expanded.contains(owner[x]) && m.dom().contains(owner[x])
                        && m[owner[x]].child_ids().contains(x),
                forall|x: u32| #[trigger] pre_visited.contains(x) ==> owner[x] == pre_owner[x]
                    && owner.dom().contains(x),
                visited@.len() == visited.item_seq().len(),
                visited@.len() == pre_visited.len() + i,
                visited@.finite(),
                visited@.subset_of(m.dom()),
                stack@.len() == pre_stack.len() + i,
                pg_partial(m, tree, pendpaths, Seq::<usize>::empty()),
                tree.id == goal_id,
                pg_path_valid(tree, path@, 0),
                pg_node_at(tree, path@, 0).children@ == tpls,
                tpls.len() == n,
                forall|t: int|
                    0 <= t < n ==> {
                        let tp = #[trigger] tpls[t];
                        tp.id.0 == kids[t] && tp.children@.len() == 0
                    },
                forall|t: int|
                    0 <= t < stack@.len() ==> pg_path_valid(tree, (#[trigger] stack@[t]).1@, 0)
                        && pg_node_at(tree, stack@[t].1@, 0).id == stack@[t].0
                        && pendpaths.contains(stack@[t].1@),
                forall|q: Seq<usize>|
                    #[trigger] pendpaths.contains(q) ==> pg_path_valid(tree, q, 0) && pg_node_at(
                        tree,
                        q,
                        0,
                    ).children@.len() == 0,
                pendpaths.finite(),
                pendpaths.len() == pre_stack.len() + n,
                pendpaths == pending_after_expand(pre_pendpaths, path@, n as int),
                pg_metrics_zero(tree),
                pg_node_at(tree, path@, 0).id == cur,
                pairs_locate(m, tree, passing_children@),
                pairs_locate(m, tree, failing_children@),
                forall|t: int|
                    0 <= t < passing_children@.len() ==> visited@.contains(
                        (#[trigger] passing_children@[t]).1.0,
                    ) && call_ensures(
                        *predicate,
                        (passing_children@[t].1, &m[passing_children@[t].1.0]),
                        true,
                    ),
                forall|t: int|
                    0 <= t < failing_children@.len() ==> visited@.contains(
                        (#[trigger] failing_children@[t]).1.0,
                    ) && call_ensures(
                        *predicate,
                        (failing_children@[t].1, &m[failing_children@[t].1.0]),
                        false,
                    ),
                forall|x: u32|
                    #[trigger] visited@.contains(x) ==> (exists|t: int|
                        0 <= t < passing_children@.len() && (#[trigger] passing_children@[t]).1.0
                            == x) || (exists|t: int|
                        0 <= t < failing_children@.len() && (
                        #[trigger] failing_children@[t]).1.0 == x),
            decreases n - i,
        {
            let child_id = cur_goal.children[i];
            proof {
                assert(kids[i as int] == child_id.0);
                assert(m.dom().contains(kids[i as int]) && kids[i as int] > cur.0);
                assert(m[cur.0].child_ids().contains(child_id.0));
                if cur.0 != root {
                    lemma_reaches_in_dom(m, root, cur.0);
                }
                assert(child_id.0 > root);
                if visited@.contains(child_id.0) {
                    if pre_visited.contains(child_id.0) {
                        let e = pre_owner[child_id.0];
                        assert(pre_expanded.contains(e));
                        assert(m[e].child_ids().contains(child_id.0));
                        assert(e == cur.0);
                        assert(false);
                    } else {
                        assert(kids.take(i as int).to_set().contains(child_id.0));
                        let t = choose|t: int|
                            0 <= t < kids.take(i as int).len() && kids.take(i as int)[t]
                                == child_id.0;
                        assert(kids[t] == child_id.0);
                        assert(m[cur.0].child_ids().no_duplicates());
                        assert(false);
                    }
                }
                if cur.0 == root {
                    lemma_reaches_child(m, cur.0, child_id.0);
                } else {
                    lemma_reaches_extend(m, root, cur.0, child_id.0);
                }
            }
            let child = goals.get(child_id.0).unwrap();
            let verdict = predicate(child_id, child);
            let pair_path = copy_path(&path);
            let ghost pre_pass = passing_children@;
            let ghost pre_fail = failing_children@;
            if verdict {
                passing_children.push((pair_path, child_id));
            } else {
                failing_children.push((pair_path, child_id));
            }
            let mut cp = copy_path(&path);
            cp.push(i);
            let ghost mid_visited = visited@;
            let ghost mid_stack = stack@;
            visited.insert(child_id.0);
            stack.push((child_id, cp));
            proof {
                assert(visited@ == mid_visited.insert(child_id.0));
                assert(stack@ == mid_stack.push((child_id, cp)));
                assert(!pending.contains(child_id.0));
                pending = pending.insert(child_id.0);
                owner = owner.insert(child_id.0, cur.0);
                lemma_len_subset(visited@, m.dom());
                lemma_to_set_push(kids.take(i as int), kids[i as int]);
                assert(kids.take(i as int + 1) == kids.take(i as int).push(kids[i as int]));
                assert(visited@ =~= pre_visited.union(kids.take(i as int + 1).to_set()));
                assert(stack@[stack@.len() - 1].0.0 == child_id.0);
                assert(GoalId(child_id.0) == child_id);
                assert(*child == m[child_id.0]);
                assert(cp@ == path@.push(i as usize)) by {
                    assert(cp@ =~= path@.push(i as usize));
                }
                lemma_path_push(tree, path@, 0, i as usize);
                assert(pg_node_at(tree, cp@, 0) == tpls[i as int]);
                assert(pendpaths.contains(cp@)) by {
                    assert(exists|t: int|
                        0 <= t < n && cp@ == #[trigger] path@.push(t as usize)) by {
                        assert(cp@ == path@.push((i as int) as usize));
                    }
                }
                if verdict {
                    assert(passing_children@[passing_children@.len() - 1].1.0 == child_id.0);
                } else {
                    assert(failing_children@[failing_children@.len() - 1].1.0 == child_id.0);
                }
                assert(pair_path@ == path@) by {
                    assert(pair_path@ =~= path@);
                }
                assert(m[pg_node_at(tree, path@, 0).id.0].child_ids().contains(child_id.0));
                assert(pairs_locate(m, tree, passing_children@)) by {
                    assert forall|t: int| 0 <= t < passing_children@.len() implies {
                        let pr = #[trigger] passing_children@[t];
                        &&& pg_path_valid(tree, pr.0@, 0)
                        &&& m.contains_key(pg_node_at(tree, pr.0@, 0).id.0)
                        &&& m[pg_node_at(tree, pr.0@, 0).id.0].child_ids().contains(pr.1.0)
                    } by {
                        if t < pre_pass.len() {
                            assert(passing_children@[t] == pre_pass[t]);
                        }
                    }
                }
                assert(pairs_locate(m, tree, failing_children@)) by {
                    assert forall|t: int| 0 <= t < failing_children@.len() implies {
                        let pr = #[trigger] failing_children@[t];
                        &&& pg_path_valid(tree, pr.0@, 0)
                        &&& m.contains_key(pg_node_at(tree, pr.0@, 0).id.0)
                        &&& m[pg_node_at(tree, pr.0@, 0).id.0].child_ids().contains(pr.1.0)
                    } by {
                        if t < pre_fail.len() {
                            assert(failing_children@[t] == pre_fail[t]);
                        }
                    }
                }
                assert forall|x: u32| #[trigger] visited@.contains(x) implies (exists|t: int|
                    0 <= t < passing_children@.len() && (#[trigger] passing_children@[t]).1.0
                        == x) || (exists|t: int|
                    0 <= t < failing_children@.len() && (#[trigger] failing_children@[t]).1.0
                        == x) by {
                    if x != child_id.0 {
                        assert(mid_visited.contains(x));
                        if exists|t: int|
                            0 <= t < pre_pass.len() && (#[trigger] pre_pass[t]).1.0 == x {
                            let t = choose|t: int|
                                0 <= t < pre_pass.len() && (#[trigger] pre_pass[t]).1.0 == x;
                            assert(passing_children@[t].1.0 == x);
                        } else {
                            let t = choose|t: int|
                                0 <= t < pre_fail.len() && (#[trigger] pre_fail[t]).1.0 == x;
                            assert(failing_children@[t].1.0 == x);
                        }
                    }
                }
            }
            i = i + 1;
        }
        proof {
            assert forall|x: u32| #[trigger] expanded.contains(x) implies m.dom().contains(x) && (
            forall|c: u32| #[trigger] m[x].child_ids().contains(c) ==> visited@.contains(c)) by {
                if x == cur.0 {
                    assert forall|c: u32| #[trigger] m[x].child_ids().contains(c) implies
                        visited@.contains(c) by {
                        let t = choose|t: int|
                            0 <= t < m[x].child_ids().len() && m[x].child_ids()[t] == c;
                        assert(kids[t] == c);
                    }
                }
            }
            lemma_len_subset(visited@, m.dom());
            if n == 0 {
                assert(visited@.len() == pre_visited.len());
                assert(stack@.len() == pre_stack_with_cur.len() - 1);
            } else {
                assert(visited@.len() > pre_visited.len());
            }
        }
    }
    proof {
        assert(pending.len() == 0);
        assert(pending =~= Set::<u32>::empty());
        assert(expanded.contains(root));
        assert forall|c: u32| #[trigger] m[root].child_ids().contains(c) implies visited@.contains(
            c,
        ) by {}
        assert forall|x: u32, c: u32|
            visited@.contains(x) && #[trigger] m[x].child_ids().contains(c) implies
            visited@.contains(c) by {
            assert(expanded.contains(x));
        }
        lemma_closed_set_contains_descendants(m, root, visited@);
        assert forall|x: u32| #[trigger] descendants(m, root).contains(x) implies visited@.contains(
            x,
        ) by {
            assert(reaches(m, root, x));
        }
        assert(visited@ =~= descendants(m, root));
        assert(pendpaths.len() == 0);
        assert(pendpaths =~= Set::<Seq<usize>>::empty());
        lemma_partial_empty_matches(m, tree, pendpaths, Seq::<usize>::empty());
    }
    let ghost gp = passing_children@;
    let ghost gf = failing_children@;
    let out = PartitionedPopulatedTree {
        populated_tree: tree,
        satisfies_predicate: passing_children,
        does_not_satisfy_predicate: failing_children,
    };
    proof {
        assert(out.satisfies_predicate@ == gp);
        assert(out.does_not_satisfy_predicate@ == gf);
        assert(pairs_locate(m, out.populated_tree, out.satisfies_predicate@));
        assert(pairs_locate(m, out.populated_tree, out.does_not_satisfy_predicate@));
        assert forall|x: u32| #[trigger] descendants(m, root).contains(x) implies (exists|t: int|
            0 <= t < out.satisfies_predicate@.len() && (#[trigger] out.satisfies_predicate@[t]).1.0 == x) || (exists|t: int|
            0 <= t < out.does_not_satisfy_predicate@.len() && (
            #[trigger] out.does_not_satisfy_predicate@[t]).1.0 == x) by {
            assert(visited@.contains(x));
            if exists|t: int| 0 <= t < gp.len() && (#[trigger] gp[t]).1.0 == x {
                let t0 = choose|t: int| 0 <= t < gp.len() && (#[trigger] gp[t]).1.0 == x;
                assert(out.satisfies_predicate@[t0].1.0 == x);
            } else {
                let t0 = choose|t: int| 0 <= t < gf.len() && (#[trigger] gf[t]).1.0 == x;
                assert(out.does_not_satisfy_predicate@[t0].1.0 == x);
            }
        }
    }
    Some(out)
}


/// Replacing the node at `p[i..]` by a same-shaped value keeps the whole
/// tree's shape.
proof fn lemma_replace_same_shape(
    a: PopulatedGoal,
    b: PopulatedGoal,
    p: Seq<usize>,
    i: int,
    v: PopulatedGoal,
)
    requires
        pg_node_replaced(a, b, p, i, v),
        pg_same_shape(pg_node_at(a, p, i), v),
        pg_path_valid(a, p, i),
        0 <= i <= p.len(),
    ensures
        pg_same_shape(a, b),
    decreases p.len() - i,
{
    if i >= p.len() {
    } else {
        lemma_replace_same_shape(a.children@[p[i] as int], b.children@[p[i] as int], p, i + 1, v);
        assert forall|j: int| 0 <= j < a.children@.len() implies pg_same_shape(
            #[trigger] a.children@[j],
            b.children@[j],
        ) by {
            if j != p[i] as int {
                lemma_same_shape_refl(a.children@[j]);
            }
        }
    }
}

/// Evidence that the non-root node at path `q` received a visit: some
/// visitor states and parent accumulator turned a node of the original
/// tree's shape there into a node whose own fields the final tree carries
/// there.
pub open spec fn child_visited_at<V, VF: PopulatedGoalMutVisitor<V>>(
    orig: PopulatedGoal,
    tfinal: PopulatedGoal,
    q: Seq<usize>,
) -> bool {
    exists|s0: VF, s1: VF, pd: V, nd0: PopulatedGoal, nd1: PopulatedGoal|
        #[trigger] VF::visit_ensures(s0, q.drop_last(), pd, q, nd0, nd1, s1) && pg_same_shape(
            nd0,
            pg_node_at(orig, q, 0),
        ) && pg_own_eq(nd1, pg_node_at(tfinal, q, 0))
}

/// A visitor over a populated tree that may rewrite each visited node's
/// layout metrics in place.  A visit must keep the node's shape: its
/// identity, fields and children structure stay, only the metric fields may
/// change.  The visitor's own `visit_ensures` relation describes what one
/// visit did.
pub trait PopulatedGoalMutVisitor<V>: Sized {
    /// What one visit did: it related the state before, the parent's path
    /// and accumulator, the child's path, the child before and after, and
    /// the state afterwards.
    spec fn visit_ensures(
        pre: Self,
        parent_path: Seq<usize>,
        parent_data: V,
        child_path: Seq<usize>,
        child: PopulatedGoal,
        child_after: PopulatedGoal,
        post: Self,
    ) -> bool;

    fn visit(
        &mut self,
        parent_path: &Vec<usize>,
        parent_data: &V,
        child_path: &Vec<usize>,
        child: &mut PopulatedGoal,
    ) -> (r: V)
        ensures
            pg_same_shape(*old(child), *final(child)),
            Self::visit_ensures(
                *old(self),
                parent_path@,
                *parent_data,
                child_path@,
                *old(child),
                *final(child),
                *final(self),
            ),
    ;
}

/// Walk every strictly-deeper node of a populated tree, depth first with an
/// explicit stack, handing the visitor mutable access to each visited node
/// and threading an accumulator from parent to child.  The tree's shape is
/// unchanged afterwards, and every non-root node received a visit,
/// witnessed by `child_visited_at`.
#[verifier::rlimit(100)]
pub fn visit_populated_goal_children_mut<V, VF: PopulatedGoalMutVisitor<V>>(
    goal: &mut PopulatedGoal,
    v: &mut VF,
    root_visitor_data: V,
)
    ensures
        pg_same_shape(*old(goal), *final(goal)),
        forall|q: Seq<usize>|
            pg_path_valid(*old(goal), q, 0) && q.len() > 0 ==> #[trigger] child_visited_at::<
                V,
                VF,
            >(*old(goal), *final(goal), q),
{
    let ghost orig = *old(goal);
    proof {
        lemma_same_shape_refl(orig);
    }
    let empty_path: Vec<usize> = Vec::new();
    let mut stack: Vec<(Vec<usize>, V)> = Vec::new();
    stack.push((empty_path, root_visitor_data));
    let ghost mut done: Set<Seq<usize>> = Set::empty();
    let ghost mut pendingp: Set<Seq<usize>> = Set::<Seq<usize>>::empty().insert(Seq::empty());
    proof {
        let ps = stack@.map_values(|e: (Vec<usize>, V)| e.0@);
        assert(ps.len() == 1);
        assert(paths_count_sum(orig, ps.drop_last()) == 0) by {
            assert(ps.drop_last().len() == 0);
        }
        assert(ps.last() == stack@[0].0@);
        assert(ps.last().len() == 0);
        assert(pg_node_at(orig, ps.last(), 0) == orig);
        assert(pendingp.contains(stack@[0].0@)) by {
            assert(stack@[0].0@ =~= Seq::<usize>::empty());
        }
        assert(pendingp.len() == 1) by {
            assert(pendingp =~= Set::<Seq<usize>>::empty().insert(Seq::empty()));
        }
        assert forall|q: Seq<usize>|
            pg_path_valid(orig, q, 0) && q.len() > 0 implies #[trigger] done.contains(q) || exists|
            p: Seq<usize>,
        | #[trigger] pendingp.contains(p) && seq_proper_prefix(p, q) by {
            let e = Seq::<usize>::empty();
            assert(pendingp.contains(e));
            assert(e =~= q.take(0));
            assert(seq_proper_prefix(e, q));
        }
    }
    while stack.len() > 0
        invariant
            pg_same_shape(orig, *goal),
            forall|t: int|
                0 <= t < stack@.len() ==> pg_path_valid(orig, (#[trigger] stack@[t]).0@, 0)
                    && pendingp.contains(stack@[t].0@),
            forall|t: int, u: int|
                0 <= t < u < stack@.len() ==> (#[trigger] stack@[t]).0@ != (
                #[trigger] stack@[u]).0@,
            pendingp.finite(),
            pendingp.len() == stack@.len(),
            forall|p1: Seq<usize>, p2: Seq<usize>|
                #[trigger] pendingp.contains(p1) && #[trigger] pendingp.contains(p2) && p1 != p2
                    ==> !seq_proper_prefix(p1, p2),
            forall|q: Seq<usize>|
                pg_path_valid(orig, q, 0) && q.len() > 0 ==> #[trigger] done.contains(q) || exists|
                    p: Seq<usize>,
                | #[trigger] pendingp.contains(p) && seq_proper_prefix(p, q),
            forall|q: Seq<usize>|
                #[trigger] done.contains(q) ==> pg_path_valid(orig, q, 0) && q.len() > 0
                    && child_visited_at::<V, VF>(orig, *goal, q),
            forall|q: Seq<usize>, p: Seq<usize>|
                #[trigger] done.contains(q) && #[trigger] pendingp.contains(p)
                    ==> !seq_proper_prefix(p, q),
        decreases paths_count_sum(orig, stack@.map_values(|e: (Vec<usize>, V)| e.0@)),
    {
        let ghost pre_stack_paths = stack@.map_values(|e: (Vec<usize>, V)| e.0@);
        let (current_path, current_visitor_data) = stack.pop().unwrap();
        let ghost cur_node = pg_node_at(orig, current_path@, 0);
        let ghost pre_pendingp = pendingp;
        let ghost pre_done = done;
        proof {
            assert(stack@.map_values(|e: (Vec<usize>, V)| e.0@) =~= pre_stack_paths.drop_last());
            assert(pre_stack_paths.last() == current_path@);
            assert(pendingp.contains(current_path@));
            pendingp = pendingp.remove(current_path@);
            assert forall|t: int| 0 <= t < stack@.len() implies pendingp.contains(
                (#[trigger] stack@[t]).0@,
            ) by {
                assert(stack@[t].0@ != current_path@);
            }
            lemma_same_shape_paths(orig, *goal, current_path@, 0);
        }
        let n = match traverse_from(goal, &current_path, 0) {
            Some(g) => g.children.len(),
            None => {
                proof {
                    assert(false);
                }
                0
            },
        };
        let mut child_index: usize = 0;
        while child_index < n
            invariant
                pg_same_shape(orig, *goal),
                pg_path_valid(orig, current_path@, 0),
                cur_node == pg_node_at(orig, current_path@, 0),
                n == cur_node.children@.len(),
                child_index <= n,
                forall|t: int|
                    0 <= t < stack@.len() ==> pg_path_valid(orig, (#[trigger] stack@[t]).0@, 0)
                        && pendingp.contains(stack@[t].0@),
                forall|t: int, u: int|
                    0 <= t < u < stack@.len() ==> (#[trigger] stack@[t]).0@ != (
                    #[trigger] stack@[u]).0@,
                pendingp.finite(),
                pendingp.len() == stack@.len(),
                pre_pendingp.contains(current_path@),
                forall|p1: Seq<usize>, p2: Seq<usize>|
                    #[trigger] pre_pendingp.contains(p1) && #[trigger] pre_pendingp.contains(p2)
                        && p1 != p2 ==> !seq_proper_prefix(p1, p2),
                pendingp == pre_pendingp.remove(current_path@).union(
                    Set::new(
                        |pp: Seq<usize>|
                            exists|u: int|
                                0 <= u < child_index && pp == #[trigger] current_path@.push(
                                    u as usize,
                                ),
                    ),
                ),
                forall|p1: Seq<usize>, p2: Seq<usize>|
                    #[trigger] pendingp.contains(p1) && #[trigger] pendingp.contains(p2) && p1
                        != p2 ==> !seq_proper_prefix(p1, p2),
                forall|q: Seq<usize>|
                    pg_path_valid(orig, q, 0) && q.len() > 0 ==> #[trigger] done.contains(q) || (
                    exists|p: Seq<usize>|
                        #[trigger] pendingp.contains(p) && seq_proper_prefix(p, q)) || (
                    seq_proper_prefix(current_path@, q) && q[current_path@.len() as int]
                        >= child_index),
                forall|q: Seq<usize>|
                    #[trigger] done.contains(q) <==> pre_done.contains(q) || exists|u: int|
                        0 <= u < child_index && q == #[trigger] current_path@.push(u as usize),
                forall|q: Seq<usize>|
                    #[trigger] done.contains(q) ==> pg_path_valid(orig, q, 0) && q.len() > 0
                        && child_visited_at::<V, VF>(orig, *goal, q),
                forall|q: Seq<usize>|
                    #[trigger] pre_done.contains(q) ==> !seq_proper_prefix(current_path@, q),
                forall|q: Seq<usize>, p: Seq<usize>|
                    #[trigger] done.contains(q) && #[trigger] pendingp.contains(p)
                        ==> !seq_proper_prefix(p, q),
                stack@.map_values(|e: (Vec<usize>, V)| e.0@).len() == pre_stack_paths.drop_last().len()
                    + child_index,
                forall|t: int|
                    0 <= t < pre_stack_paths.drop_last().len() ==> (#[trigger] stack@[t]).0@
                        == pre_stack_paths.drop_last()[t],
                forall|t: int|
                    pre_stack_paths.drop_last().len() <= t < stack@.len() ==> (
                    #[trigger] stack@[t]).0@ == current_path@.push(
                        (t - pre_stack_paths.drop_last().len()) as usize,
                    ),
                paths_count_sum(orig, stack@.map_values(|e: (Vec<usize>, V)| e.0@))
                    == paths_count_sum(orig, pre_stack_paths.drop_last()) + pg_count_seq(
                    cur_node.children@.take(child_index as int),
                ),
            decreases n - child_index,
        {
            let mut child_index_path = copy_path(&current_path);
            child_index_path.push(child_index);
            let ghost cp = child_index_path@;
            proof {
                lemma_path_push(orig, current_path@, 0, child_index);
                assert(cp == current_path@.push(child_index));
                lemma_same_shape_paths(orig, *goal, cp, 0);
                assert(seq_proper_prefix(current_path@, cp)) by {
                    assert(current_path@ =~= cp.take(current_path@.len() as int));
                }
            }
            let ghost pre_tree = *goal;
            let ghost mut mid_pendingp = pendingp;
            let child_goal = traverse_from_mut(goal, &child_index_path, 0);
            let child_visitor_data = v.visit(
                &current_path,
                &current_visitor_data,
                &child_index_path,
                child_goal,
            );
            proof {
                lemma_same_shape_paths(orig, pre_tree, cp, 0);
                lemma_same_shape_trans(
                    pg_node_at(orig, cp, 0),
                    pg_node_at(pre_tree, cp, 0),
                    *final(child_goal),
                );
                lemma_replace_same_shape(pre_tree, *goal, cp, 0, *final(child_goal));
                lemma_same_shape_trans(orig, pre_tree, *goal);
                lemma_replace_at(pre_tree, *goal, cp, 0, *final(child_goal));
                // The earlier visits' evidence survives: this visit rewrote
                // a subtree no finished node sits in.
                assert forall|q: Seq<usize>| #[trigger] done.contains(q) implies pg_path_valid(
                    orig,
                    q,
                    0,
                ) && q.len() > 0 && child_visited_at::<V, VF>(orig, *goal, q) by {
                    lemma_same_shape_paths(orig, pre_tree, q, 0);
                    assert(!(q.len() >= cp.len() && (forall|d: int|
                        0 <= d < cp.len() ==> cp[d] == q[d]))) by {
                        if q.len() >= cp.len() && (forall|d: int|
                            0 <= d < cp.len() ==> cp[d] == q[d]) {
                            assert(current_path@ =~= q.take(current_path@.len() as int));
                            if pre_done.contains(q) {
                                assert(seq_proper_prefix(current_path@, q));
                            } else {
                                let u = choose|u: int|
                                    0 <= u < child_index && q == #[trigger] current_path@.push(
                                        u as usize,
                                    );
                                assert(q[current_path@.len() as int] == u as usize);
                                assert(cp[current_path@.len() as int] == child_index as usize);
                            }
                            assert(false);
                        }
                    }
                    lemma_replace_elsewhere_own(pre_tree, *goal, cp, 0, *final(child_goal), q);
                    let (s0, s1, pd, nd0, nd1) = choose|
                        s0: VF,
                        s1: VF,
                        pd: V,
                        nd0: PopulatedGoal,
                        nd1: PopulatedGoal,
                    |
                        #[trigger] VF::visit_ensures(s0, q.drop_last(), pd, q, nd0, nd1, s1)
                            && pg_same_shape(nd0, pg_node_at(orig, q, 0)) && pg_own_eq(
                            nd1,
                            pg_node_at(pre_tree, q, 0),
                        );
                    assert(pg_own_eq(nd1, pg_node_at(*goal, q, 0)));
                    assert(child_visited_at::<V, VF>(orig, *goal, q));
                }
                // This visit's own evidence.
                assert(cp.drop_last() =~= current_path@);
                assert(pg_same_shape(pg_node_at(pre_tree, cp, 0), pg_node_at(orig, cp, 0))) by {
                    lemma_same_shape_sym(
                        pg_node_at(orig, cp, 0),
                        pg_node_at(pre_tree, cp, 0),
                    );
                }
                assert(pg_node_at(*goal, cp, 0) == *final(child_goal));
                lemma_own_eq_refl(*final(child_goal));
                assert(child_visited_at::<V, VF>(orig, *goal, cp));
                done = done.insert(cp);
                mid_pendingp = pendingp;
                pendingp = pendingp.insert(cp);
            }
            let path_copy = copy_path(&child_index_path);
            let ghost mid_paths = stack@.map_values(|e: (Vec<usize>, V)| e.0@);
            stack.push((path_copy, child_visitor_data));
            proof {
                assert(stack@.map_values(|e: (Vec<usize>, V)| e.0@) =~= mid_paths.push(cp));
                lemma_paths_count_sum_push(orig, mid_paths, cp);
                assert(pg_node_at(orig, cp, 0) == cur_node.children@[child_index as int]);
                assert(cur_node.children@.take(child_index as int + 1)
                    =~= cur_node.children@.take(child_index as int).push(
                    cur_node.children@[child_index as int],
                ));
                lemma_pg_count_seq_push(
                    cur_node.children@.take(child_index as int),
                    cur_node.children@[child_index as int],
                );
                // The new pending path is fresh and incomparable.
                assert forall|p1: Seq<usize>, p2: Seq<usize>|
                    #[trigger] pendingp.contains(p1) && #[trigger] pendingp.contains(p2) && p1
                        != p2 implies !seq_proper_prefix(p1, p2) by {
                    if p1 == cp || p2 == cp {
                        let other = if p1 == cp { p2 } else { p1 };
                        if !pre_pendingp.remove(current_path@).contains(other) && other != cp {
                            let u = choose|u: int|
                                0 <= u < child_index && other == #[trigger] current_path@.push(
                                    u as usize,
                                );
                            assert(other.len() == cp.len());
                        }
                        if pre_pendingp.remove(current_path@).contains(other) {
                            if seq_proper_prefix(other, cp) {
                                assert(other.len() <= current_path@.len());
                                assert forall|d: int| 0 <= d < other.len() implies
                                    current_path@[d] == other[d] by {
                                    assert(other[d] == cp.take(other.len() as int)[d]);
                                }
                                assert(other =~= current_path@.take(other.len() as int));
                                assert(other != current_path@ ==> seq_proper_prefix(
                                    other,
                                    current_path@,
                                ));
                            }
                            if seq_proper_prefix(cp, other) {
                                assert(seq_proper_prefix(current_path@, other)) by {
                                    assert(seq_proper_prefix(current_path@, cp));
                                    lemma_prefix_trans(current_path@, cp, other);
                                }
                            }
                        }
                    }
                }
                assert(pendingp.len() == stack@.len()) by {
                    assert(!pre_pendingp.remove(current_path@).union(
                        Set::new(
                            |pp: Seq<usize>|
                                exists|u: int|
                                    0 <= u < child_index && pp == #[trigger] current_path@.push(
                                        u as usize,
                                    ),
                        ),
                    ).contains(cp)) by {
                        if pre_pendingp.contains(cp) {
                            assert(seq_proper_prefix(current_path@, cp));
                        }
                        if exists|u: int|
                            0 <= u < child_index && cp == #[trigger] current_path@.push(
                                u as usize,
                            ) {
                            let u = choose|u: int|
                                0 <= u < child_index && cp == #[trigger] current_path@.push(
                                    u as usize,
                                );
                            assert(cp[current_path@.len() as int] == u as usize);
                        }
                    }
                }
                assert(pendingp =~= pre_pendingp.remove(current_path@).union(
                    Set::new(
                        |pp: Seq<usize>|
                            exists|u: int|
                                0 <= u < child_index + 1 && pp == #[trigger] current_path@.push(
                                    u as usize,
                                ),
                    ),
                )) by {
                    assert forall|x: Seq<usize>| #[trigger] pendingp.contains(x) implies
                        pre_pendingp.remove(current_path@).contains(x) || (exists|u: int|
                        0 <= u < child_index + 1 && x == #[trigger] current_path@.push(
                            u as usize,
                        )) by {
                        if x == cp {
                            assert(cp == current_path@.push((child_index as int) as usize));
                        }
                    }
                    assert forall|x: Seq<usize>|
                        pre_pendingp.remove(current_path@).contains(x) || (exists|u: int|
                            0 <= u < child_index + 1 && x == #[trigger] current_path@.push(
                                u as usize,
                            )) implies #[trigger] pendingp.contains(x) by {
                        if !pre_pendingp.remove(current_path@).contains(x) {
                            let u = choose|u: int|
                                0 <= u < child_index + 1 && x == #[trigger] current_path@.push(
                                    u as usize,
                                );
                            if u < child_index {
                            } else {
                                assert(x == cp);
                            }
                        }
                    }
                }
                assert forall|q: Seq<usize>| #[trigger] done.contains(q) <==> pre_done.contains(
                    q,
                ) || exists|u: int|
                    0 <= u < child_index + 1 && q == #[trigger] current_path@.push(u as usize) by {
                    if q == cp {
                        assert(cp == current_path@.push((child_index as int) as usize));
                    }
                }
                // Coverage is kept: finished children are done, deeper paths
                // stay covered by the new pending path or remaining ones.
                assert forall|q: Seq<usize>|
                    pg_path_valid(orig, q, 0) && q.len() > 0 implies #[trigger] done.contains(q)
                        || (exists|p: Seq<usize>|
                        #[trigger] pendingp.contains(p) && seq_proper_prefix(p, q)) || (
                    seq_proper_prefix(current_path@, q) && q[current_path@.len() as int]
                        >= child_index + 1) by {
                    if !done.contains(q) {
                        if seq_proper_prefix(current_path@, q) && q[current_path@.len() as int]
                            == child_index as usize {
                            if q.len() == current_path@.len() + 1 {
                                assert(q =~= cp);
                                assert(done.contains(q));
                            } else {
                                assert(seq_proper_prefix(cp, q)) by {
                                    assert forall|d: int| 0 <= d < cp.len() implies q[d]
                                        == cp[d] by {
                                        if d < current_path@.len() {
                                            assert(current_path@[d] == q.take(
                                                current_path@.len() as int,
                                            )[d]);
                                        }
                                    }
                                    assert(cp =~= q.take(cp.len() as int));
                                }
                                assert(pendingp.contains(cp));
                            }
                        } else if exists|p: Seq<usize>|
                            #[trigger] mid_pendingp.contains(p) && seq_proper_prefix(p, q) {
                            let p0 = choose|p: Seq<usize>|
                                #[trigger] mid_pendingp.contains(p) && seq_proper_prefix(p, q);
                            assert(pendingp.contains(p0));
                        }
                    }
                }
                assert forall|q: Seq<usize>, p: Seq<usize>|
                    #[trigger] done.contains(q) && #[trigger] pendingp.contains(p) implies
                    !seq_proper_prefix(p, q) by {
                    if seq_proper_prefix(p, q) {
                        if p == cp {
                            if pre_done.contains(q) {
                                assert(seq_proper_prefix(current_path@, q)) by {
                                    assert(current_path@ =~= q.take(current_path@.len() as int));
                                }
                            } else {
                                let u = choose|u: int|
                                    0 <= u < child_index + 1 && q == #[trigger] current_path@.push(
                                        u as usize,
                                    );
                                assert(q.len() == current_path@.len() + 1);
                                assert(p.len() < q.len());
                                assert(p.len() == q.len());
                            }
                        } else if q == cp {
                            if pre_pendingp.remove(current_path@).contains(p) {
                                assert(p =~= cp.take(p.len() as int));
                                assert(p.len() <= current_path@.len());
                                assert forall|d: int| 0 <= d < p.len() implies current_path@[d]
                                    == p[d] by {
                                    assert(p[d] == cp.take(p.len() as int)[d]);
                                }
                                assert(p =~= current_path@.take(p.len() as int));
                                if p != current_path@ {
                                    assert(seq_proper_prefix(p, current_path@));
                                }
                            } else {
                                let u = choose|u: int|
                                    0 <= u < child_index && p == #[trigger] current_path@.push(
                                        u as usize,
                                    );
                                assert(p.len() == cp.len());
                            }
                        }
                    }
                }
            }
            child_index = child_index + 1;
        }
        proof {
            assert(cur_node.children@.take(n as int) =~= cur_node.children@);
            lemma_paths_count_sum_pop(orig, pre_stack_paths, cur_node);
            // The popped node's subtree stays covered through its children.
            assert forall|q: Seq<usize>|
                pg_path_valid(orig, q, 0) && q.len() > 0 implies #[trigger] done.contains(q) || (
                exists|p: Seq<usize>|
                    #[trigger] pendingp.contains(p) && seq_proper_prefix(p, q)) by {
                if !done.contains(q) {
                    if seq_proper_prefix(current_path@, q) && q[current_path@.len() as int]
                        >= n {
                        lemma_valid_path_prefix(orig, q, 0, current_path@.len() as int + 1);
                        lemma_valid_path_prefix(orig, q, 0, current_path@.len() as int);
                        assert(q.take(current_path@.len() as int) =~= current_path@);
                        assert((q[current_path@.len() as int] as int) < pg_node_at(
                            orig,
                            q.take(current_path@.len() as int),
                            0,
                        ).children@.len());
                        assert(false);
                    }
                }
            }
        }
    }
    proof {
        assert(pendingp.len() == 0);
        assert(pendingp =~= Set::<Seq<usize>>::empty());
        assert forall|q: Seq<usize>|
            pg_path_valid(orig, q, 0) && q.len() > 0 implies #[trigger] child_visited_at::<V, VF>(
            orig,
            *goal,
            q,
        ) by {
            assert(done.contains(q) || exists|p: Seq<usize>|
                #[trigger] pendingp.contains(p) && seq_proper_prefix(p, q));
        }
    }
}

proof fn lemma_paths_count_sum_pop(orig: PopulatedGoal, pre: Seq<Seq<usize>>, cur: PopulatedGoal)
    requires
        pre.len() > 0,
        cur == pg_node_at(orig, pre.last(), 0),
    ensures
        paths_count_sum(orig, pre) == paths_count_sum(orig, pre.drop_last()) + 1 + pg_count_seq(
            cur.children@,
        ),
{
}

/// A visitor assigning each visited node its `max_child_layer_width` from a
/// propagated per-depth widths list, falling back to the node's own child
/// count where the list has no entry.
pub struct LayerWidthVisitor {
    pub widths: Vec<usize>,
}

impl PopulatedGoalMutVisitor<()> for LayerWidthVisitor {
    open spec fn visit_ensures(
        pre: LayerWidthVisitor,
        parent_path: Seq<usize>,
        parent_data: (),
        child_path: Seq<usize>,
        child: PopulatedGoal,
        child_after: PopulatedGoal,
        post: LayerWidthVisitor,
    ) -> bool {
        &&& post == pre
        &&& child_after.children == child.children
        &&& child_after.max_child_depth == child.max_child_depth
        &&& pg_fields_eq(child, child_after)
        &&& (child_after.max_child_layer_width as nat) == (if child_path.len()
            < pre.widths@.len() {
            pre.widths@[child_path.len() as int] as nat
        } else {
            child.children@.len()
        })
    }

    fn visit(
        &mut self,
        parent_path: &Vec<usize>,
        parent_data: &(),
        child_path: &Vec<usize>,
        child: &mut PopulatedGoal,
    ) -> (r: ())
        ensures
            pg_same_shape(*old(child), *final(child)),
            Self::visit_ensures(
                *old(self),
                parent_path@,
                *parent_data,
                child_path@,
                *old(child),
                *final(child),
                *final(self),
            ),
    {
        let w = if child_path.len() < self.widths.len() {
            self.widths[child_path.len()]
        } else {
            child.children.len()
        };
        child.max_child_layer_width = w;
        proof {
            lemma_same_shape_refl_seq(old(child).children@);
        }
    }
}

/// Two nodes agreeing on everything that belongs to the node itself: its
/// descriptive fields, both metrics, and its child count.
pub open spec fn pg_own_eq(a: PopulatedGoal, b: PopulatedGoal) -> bool {
    &&& pg_fields_eq(a, b)
    &&& a.max_child_depth == b.max_child_depth
    &&& a.max_child_layer_width == b.max_child_layer_width
    &&& a.children@.len() == b.children@.len()
}

/// Evidence that the node at prefix `path.take(k)` received a visit: some
/// visitor states turned a node of the anchor's shape there into a node
/// whose own fields the final tree carries there.
pub open spec fn path_visited_at<VF: PopulatedGoalPathVisitor>(
    anchor: PopulatedGoal,
    tfinal: PopulatedGoal,
    path: Seq<usize>,
    k: int,
    i: int,
) -> bool {
    exists|s0: VF, s1: VF, nd0: PopulatedGoal, nd1: PopulatedGoal|
        #[trigger] VF::visit_ensures(s0, nd0, path.take(k), nd1, s1) && pg_same_shape(
            nd0,
            pg_node_at(anchor, path.take(k), i),
        ) && pg_own_eq(nd1, pg_node_at(tfinal, path.take(k), i))
}

/// A visitor over the nodes along one child-index path, from the walk's
/// start down to the path's end.  A visit must keep the node's shape, and
/// its own `visit_ensures` relation describes what one visit did.
pub trait PopulatedGoalPathVisitor: Sized {
    /// What one visit did: it related the state before, the node and its
    /// path, the node afterwards, and the state afterwards.
    spec fn visit_ensures(
        pre: Self,
        node: PopulatedGoal,
        path: Seq<usize>,
        node_after: PopulatedGoal,
        post: Self,
    ) -> bool;

    fn visit(&mut self, goal: &mut PopulatedGoal, goal_path: &Vec<usize>)
        ensures
            pg_same_shape(*old(goal), *final(goal)),
            Self::visit_ensures(*old(self), *old(goal), goal_path@, *final(goal), *final(self)),
    ;
}

/// A visitor telling every node on the way down to a leaf that the leaf
/// sits `leaf_depth` levels below the walk's start: each node's
/// `max_child_depth` is raised to at least the distance down to that leaf.
pub struct DepthRaiseVisitor {
    pub leaf_depth: usize,
}

impl PopulatedGoalPathVisitor for DepthRaiseVisitor {
    open spec fn visit_ensures(
        pre: DepthRaiseVisitor,
        node: PopulatedGoal,
        path: Seq<usize>,
        node_after: PopulatedGoal,
        post: DepthRaiseVisitor,
    ) -> bool {
        &&& post == pre
        &&& node_after.max_child_depth == if path.len() < pre.leaf_depth && node.max_child_depth
            < pre.leaf_depth - path.len() {
            (pre.leaf_depth - path.len()) as usize
        } else {
            node.max_child_depth
        }
        &&& pg_own_eq(
            node,
            PopulatedGoal { max_child_depth: node.max_child_depth, ..node_after },
        )
        &&& node_after.children == node.children
    }

    fn visit(&mut self, goal: &mut PopulatedGoal, goal_path: &Vec<usize>)
        ensures
            pg_same_shape(*old(goal), *final(goal)),
            Self::visit_ensures(*old(self), *old(goal), goal_path@, *final(goal), *final(self)),
    {
        if goal_path.len() < self.leaf_depth {
            let d = self.leaf_depth - goal_path.len();
            if goal.max_child_depth < d {
                goal.max_child_depth = d;
            }
        }
        proof {
            lemma_same_shape_refl_seq(old(goal).children@);
        }
    }
}

/// Visit every node along `path` below `root`, in order, starting with
/// `root` itself; each visit receives the node and its path so far.  The
/// tree's shape is unchanged afterwards, and for every prefix of the path a
/// visit took place: some visitor state turned a node of the original
/// tree's shape there into the node the final tree carries there.
pub fn visit_goal_path_from<VF: PopulatedGoalPathVisitor>(
    root: &mut PopulatedGoal,
    path: &Vec<usize>,
    v: &mut VF,
)
    requires
        pg_path_valid(*old(root), path@, 0),
    ensures
        pg_same_shape(*old(root), *final(root)),
        forall|k: int|
            0 <= k <= path@.len() ==> #[trigger] path_visited_at::<VF>(
                *old(root),
                *final(root),
                path@,
                k,
                0,
            ),
{
    let prefix: Vec<usize> = Vec::new();
    proof {
        assert(prefix@ =~= path@.take(0));
        lemma_same_shape_refl(*root);
    }
    let ghost anchor = *root;
    proof {
        assert(anchor == *old(root));
    }
    visit_path_from_inner(root, path, 0, v, &prefix, Ghost(anchor));
}

fn visit_path_from_inner<VF: PopulatedGoalPathVisitor>(
    t: &mut PopulatedGoal,
    path: &Vec<usize>,
    i: usize,
    v: &mut VF,
    prefix: &Vec<usize>,
    Ghost(anchor): Ghost<PopulatedGoal>,
)
    requires
        i <= path@.len(),
        pg_path_valid(*old(t), path@, i as int),
        prefix@ == path@.take(i as int),
        pg_same_shape(anchor, *old(t)),
    ensures
        pg_same_shape(*old(t), *final(t)),
        forall|k: int|
            i <= k <= path@.len() ==> #[trigger] path_visited_at::<VF>(
                anchor,
                *final(t),
                path@,
                k,
                i as int,
            ),
    decreases path@.len() - i,
{
    let ghost t0 = *t;
    let ghost v0 = *v;
    v.visit(t, prefix);
    let ghost t1 = *t;
    let ghost v1 = *v;
    if i < path.len() {
        let idx = path[i];
        proof {
            assert(t1.children@.len() == t0.children@.len());
            assert(pg_same_shape(t0.children@[idx as int], t1.children@[idx as int]));
            lemma_same_shape_paths(t0.children@[idx as int], t1.children@[idx as int], path@, i as int + 1);
        }
        let ghost a = *t;
        let mut kid = t.children.remove(idx);
        let mut pf = copy_path(prefix);
        pf.push(idx);
        proof {
            assert(pf@ =~= path@.take(i as int + 1));
            lemma_same_shape_trans(anchor.children@[idx as int], t0.children@[idx as int], kid);
        }
        let ghost anchor_kid = anchor.children@[idx as int];
        visit_path_from_inner(&mut kid, path, i + 1, v, &pf, Ghost(anchor_kid));
        t.children.insert(idx, kid);
        proof {
            assert(t.children@ =~= a.children@.update(idx as int, t.children@[idx as int]));
            assert(pg_same_shape(t0, *t)) by {
                assert forall|j: int| 0 <= j < t0.children@.len() implies pg_same_shape(
                    #[trigger] t0.children@[j],
                    t.children@[j],
                ) by {
                    if j == idx as int {
                        lemma_same_shape_trans(
                            t0.children@[j],
                            a.children@[j],
                            t.children@[j],
                        );
                    } else {
                        assert(t.children@[j] == a.children@[j]);
                    }
                }
            }
            // Every prefix from `i` on got its visit: `i` itself here, the
            // deeper ones inside the child.
            assert forall|k: int| i <= k <= path@.len() implies #[trigger] path_visited_at::<VF>(
                anchor,
                *t,
                path@,
                k,
                i as int,
            ) by {
                if k == i {
                    assert(path@.take(k).len() == k);
                    assert(pg_node_at(anchor, path@.take(k), i as int) == anchor);
                    assert(pg_node_at(*t, path@.take(k), i as int) == *t);
                    assert(prefix@ == path@.take(k));
                    assert(VF::visit_ensures(v0, t0, path@.take(k), t1, v1));
                    assert(pg_same_shape(t0, anchor)) by {
                        lemma_same_shape_sym(anchor, t0);
                    }
                    assert(pg_own_eq(t1, *t));
                } else {
                    assert(path_visited_at::<VF>(anchor_kid, kid, path@, k, i as int + 1));
                    assert((idx as int) < anchor.children@.len()) by {
                        assert(anchor.children@.len() == t0.children@.len());
                    }
                    assert((idx as int) < t.children@.len());
                    assert(path@.take(k).len() > i);
                    let (s0, s1, nd0, nd1) = choose|
                        s0: VF,
                        s1: VF,
                        nd0: PopulatedGoal,
                        nd1: PopulatedGoal,
                    |
                        #[trigger] VF::visit_ensures(s0, nd0, path@.take(k), nd1, s1)
                            && pg_same_shape(
                            nd0,
                            pg_node_at(anchor_kid, path@.take(k), i as int + 1),
                        ) && pg_own_eq(nd1, pg_node_at(kid, path@.take(k), i as int + 1));
                    assert(path@.take(k)[i as int] == idx);
                    assert(pg_node_at(anchor, path@.take(k), i as int) == pg_node_at(
                        anchor_kid,
                        path@.take(k),
                        i as int + 1,
                    ));
                    assert(t.children@[idx as int] == kid);
                    assert(pg_node_at(*t, path@.take(k), i as int) == pg_node_at(
                        kid,
                        path@.take(k),
                        i as int + 1,
                    ));
                    assert(VF::visit_ensures(s0, nd0, path@.take(k), nd1, s1) && pg_same_shape(
                        nd0,
                        pg_node_at(anchor, path@.take(k), i as int),
                    ) && pg_own_eq(nd1, pg_node_at(*t, path@.take(k), i as int)));
                }
            }
        }
    } else {
        proof {
            assert forall|k: int| i <= k <= path@.len() implies #[trigger] path_visited_at::<VF>(
                anchor,
                *t,
                path@,
                k,
                i as int,
            ) by {
                assert(k == i);
                assert(pg_node_at(anchor, path@.take(k), i as int) == anchor);
                assert(pg_node_at(*t, path@.take(k), i as int) == *t);
                assert(prefix@ == path@.take(k));
                assert(VF::visit_ensures(v0, t0, path@.take(k), t1, v1));
                assert(pg_same_shape(t0, anchor)) by {
                    lemma_same_shape_sym(anchor, t0);
                }
                assert(pg_own_eq(t1, *t));
            }
        }
    }
}

/// Shape agreement is symmetric.
proof fn lemma_same_shape_sym(a: PopulatedGoal, b: PopulatedGoal)
    requires
        pg_same_shape(a, b),
    ensures
        pg_same_shape(b, a),
    decreases a,
{
    assert forall|j: int| 0 <= j < b.children@.len() implies pg_same_shape(
        #[trigger] b.children@[j],
        a.children@[j],
    ) by {
        lemma_same_shape_sym(a.children@[j], b.children@[j]);
    }
}


/// The length of the longest downward path from `t` to a leaf beneath it:
/// 0 for a leaf, otherwise one more than the deepest child.
pub open spec fn pg_leaf_height(t: PopulatedGoal) -> nat
    decreases t,
{
    pg_lh_seq(t.children@)
}

pub open spec fn pg_lh_seq(s: Seq<PopulatedGoal>) -> nat
    decreases s,
{
    if s.len() == 0 {
        0
    } else {
        let rest = pg_lh_seq(s.drop_last());
        let last = 1 + pg_leaf_height(s.last());
        if last > rest {
            last
        } else {
            rest
        }
    }
}

/// Every node's `max_child_depth` equals the longest leaf-ward path beneath
/// it.
pub open spec fn pg_depths_ok(t: PopulatedGoal) -> bool
    decreases t,
{
    t.max_child_depth == pg_leaf_height(t) && forall|j: int|
        0 <= j < t.children@.len() ==> pg_depths_ok(#[trigger] t.children@[j])
}

/// How many nodes of `t` sit exactly `d` levels below it (`t` itself at 0).
pub open spec fn pg_count_at_depth(t: PopulatedGoal, d: nat) -> nat
    decreases t,
{
    if d == 0 {
        1
    } else {
        pg_cad_seq(t.children@, (d - 1) as nat)
    }
}

pub open spec fn pg_cad_seq(s: Seq<PopulatedGoal>, d: nat) -> nat
    decreases s,
{
    if s.len() == 0 {
        0
    } else {
        pg_cad_seq(s.drop_last(), d) + pg_count_at_depth(s.last(), d)
    }
}

/// The widest layer of `t` at depth `k` or below (0 beyond the deepest
/// layer).
pub open spec fn max_count_from(t: PopulatedGoal, k: nat) -> nat
    decreases pg_leaf_height(t) + 1 - k,
{
    if k > pg_leaf_height(t) {
        0
    } else {
        let here = pg_count_at_depth(t, k);
        let below = max_count_from(t, k + 1);
        if here > below {
            here
        } else {
            below
        }
    }
}

/// Every node strictly below the root carries the width the propagated list
/// `ws` gives for its depth, falling back to its own child count where the
/// list ends.
pub open spec fn pg_widths_from(t: PopulatedGoal, k: nat, ws: Seq<usize>) -> bool
    decreases t,
{
    forall|j: int|
        0 <= j < t.children@.len() ==> {
            let c = #[trigger] t.children@[j];
            &&& (c.max_child_layer_width as nat) == (if k + 1 < ws.len() {
                ws[k as int + 1] as nat
            } else {
                c.children@.len()
            })
            &&& pg_widths_from(c, k + 1, ws)
        }
}

/// The per-node width law of the populator, stated against the whole tree
/// `root`: a node at depth `k` holds the maximum sibling-layer count found
/// anywhere strictly below depth `k`, or its own child count where the tree
/// does not reach deeper.
pub open spec fn pg_widths_ok_below(root: PopulatedGoal, t: PopulatedGoal, k: nat) -> bool
    decreases t,
{
    forall|j: int|
        0 <= j < t.children@.len() ==> {
            let c = #[trigger] t.children@[j];
            &&& (c.max_child_layer_width as nat) == (if k + 1 < pg_leaf_height(root) {
                max_count_from(root, k + 2)
            } else {
                c.children@.len()
            })
            &&& pg_widths_ok_below(root, c, k + 1)
        }
}

/// The whole width law: the root's own width covers every layer below it,
/// and each deeper node follows `pg_widths_ok_below`.
pub open spec fn pg_widths_ok(t: PopulatedGoal) -> bool {
    &&& (t.max_child_layer_width as nat) == (if pg_leaf_height(t) > 0 {
        max_count_from(t, 1)
    } else {
        t.children@.len()
    })
    &&& pg_widths_ok_below(t, t, 0)
}

/// Two trees of the same shape whose `max_child_depth` fields also agree.
pub open spec fn pg_depths_eq(a: PopulatedGoal, b: PopulatedGoal) -> bool
    decreases a,
{
    a.max_child_depth == b.max_child_depth && a.children@.len() == b.children@.len() && forall|
        j: int,
    | 0 <= j < a.children@.len() ==> pg_depths_eq(#[trigger] a.children@[j], b.children@[j])
}

/// Same shape gives the same leaf height.
proof fn lemma_same_shape_lh(a: PopulatedGoal, b: PopulatedGoal)
    requires
        pg_same_shape(a, b),
    ensures
        pg_leaf_height(a) == pg_leaf_height(b),
    decreases a,
{
    lemma_same_shape_lh_seq(a.children@, b.children@);
}

proof fn lemma_same_shape_lh_seq(a: Seq<PopulatedGoal>, b: Seq<PopulatedGoal>)
    requires
        a.len() == b.len(),
        forall|j: int| 0 <= j < a.len() ==> pg_same_shape(#[trigger] a[j], b[j]),
    ensures
        pg_lh_seq(a) == pg_lh_seq(b),
    decreases a,
{
    if a.len() > 0 {
        assert(forall|j: int|
            0 <= j < a.drop_last().len() ==> pg_same_shape(
                #[trigger] a.drop_last()[j],
                b.drop_last()[j],
            ));
        lemma_same_shape_lh_seq(a.drop_last(), b.drop_last());
        lemma_same_shape_lh(a.last(), b.last());
    }
}

/// Same shape gives the same per-depth layer counts.
proof fn lemma_same_shape_cad(a: PopulatedGoal, b: PopulatedGoal, d: nat)
    requires
        pg_same_shape(a, b),
    ensures
        pg_count_at_depth(a, d) == pg_count_at_depth(b, d),
    decreases a,
{
    if d > 0 {
        lemma_same_shape_cad_seq(a.children@, b.children@, (d - 1) as nat);
    }
}

proof fn lemma_same_shape_cad_seq(a: Seq<PopulatedGoal>, b: Seq<PopulatedGoal>, d: nat)
    requires
        a.len() == b.len(),
        forall|j: int| 0 <= j < a.len() ==> pg_same_shape(#[trigger] a[j], b[j]),
    ensures
        pg_cad_seq(a, d) == pg_cad_seq(b, d),
    decreases a,
{
    if a.len() > 0 {
        assert(forall|j: int|
            0 <= j < a.drop_last().len() ==> pg_same_shape(
                #[trigger] a.drop_last()[j],
                b.drop_last()[j],
            ));
        lemma_same_shape_cad_seq(a.drop_last(), b.drop_last(), d);
        lemma_same_shape_cad(a.last(), b.last(), d);
    }
}

/// Depth-preserving shape-preserving rewrites keep the depth law.
proof fn lemma_depths_eq_ok(a: PopulatedGoal, b: PopulatedGoal)
    requires
        pg_depths_ok(a),
        pg_same_shape(a, b),
        pg_depths_eq(a, b),
    ensures
        pg_depths_ok(b),
    decreases a,
{
    lemma_same_shape_lh(a, b);
    assert forall|j: int| 0 <= j < b.children@.len() implies pg_depths_ok(
        #[trigger] b.children@[j],
    ) by {
        lemma_depths_eq_ok(a.children@[j], b.children@[j]);
    }
}

/// Elements bound their sequence's leaf height from below.
proof fn lemma_lh_seq_ge(s: Seq<PopulatedGoal>, j: int)
    requires
        0 <= j < s.len(),
    ensures
        pg_lh_seq(s) >= 1 + pg_leaf_height(s[j]),
    decreases s,
{
    if j == s.len() - 1 {
    } else {
        lemma_lh_seq_ge(s.drop_last(), j);
        assert(s.drop_last()[j] == s[j]);
    }
}

/// A tree's leaf height is strictly below its node count.
proof fn lemma_lh_lt_count(t: PopulatedGoal)
    ensures
        pg_leaf_height(t) < pg_count(t),
    decreases t,
{
    lemma_lh_seq_le_count_seq(t.children@);
}

proof fn lemma_lh_seq_le_count_seq(s: Seq<PopulatedGoal>)
    ensures
        pg_lh_seq(s) <= pg_count_seq(s),
    decreases s,
{
    if s.len() > 0 {
        lemma_lh_seq_le_count_seq(s.drop_last());
        lemma_lh_lt_count(s.last());
    }
}

/// Layer counts never exceed the node count.
proof fn lemma_cad_le_count(t: PopulatedGoal, d: nat)
    ensures
        pg_count_at_depth(t, d) <= pg_count(t),
    decreases t,
{
    if d > 0 {
        lemma_cad_seq_le_count_seq(t.children@, (d - 1) as nat);
    }
}

proof fn lemma_cad_seq_le_count_seq(s: Seq<PopulatedGoal>, d: nat)
    ensures
        pg_cad_seq(s, d) <= pg_count_seq(s),
    decreases s,
{
    if s.len() > 0 {
        lemma_cad_seq_le_count_seq(s.drop_last(), d);
        lemma_cad_le_count(s.last(), d);
    }
}

/// Give every node its `max_child_depth` per the depth law, bottom up, and
/// return the tree's own leaf height.  Nothing else changes: the shape and
/// all width fields stay.
fn compute_depths(t: &mut PopulatedGoal) -> (h: usize)
    requires
        pg_leaf_height(*old(t)) <= usize::MAX,
    ensures
        pg_same_shape(*old(t), *final(t)),
        pg_depths_ok(*final(t)),
        h == pg_leaf_height(*old(t)),
        final(t).max_child_layer_width == old(t).max_child_layer_width,
    decreases pg_count(*old(t)),
{
    let ghost orig = *old(t);
    proof {
        lemma_same_shape_refl(orig);
    }
    let n = t.children.len();
    let mut deepest: usize = 0;
    let mut j: usize = 0;
    proof {
        assert(orig.children@.take(0) =~= Seq::<PopulatedGoal>::empty());
    }
    while j < n
        invariant
            orig == *old(t),
            pg_leaf_height(orig) <= usize::MAX,
            n == t.children@.len(),
            n == orig.children@.len(),
            j <= n,
            t.id == orig.id,
            t.parent_goal_id == orig.parent_goal_id,
            t.name == orig.name,
            t.effort_to_date == orig.effort_to_date,
            t.effort_to_complete == orig.effort_to_complete,
            t.max_child_depth == orig.max_child_depth,
            t.max_child_layer_width == orig.max_child_layer_width,
            forall|u: int|
                0 <= u < n ==> pg_same_shape(#[trigger] orig.children@[u], t.children@[u]),
            forall|u: int| 0 <= u < j ==> pg_depths_ok(#[trigger] t.children@[u]),
            pg_count(*t) == pg_count(orig),
            deepest == pg_lh_seq(orig.children@.take(j as int)),
        decreases n - j,
    {
        let ghost a = *t;
        let mut kid = t.children.remove(j);
        let ghost kid0 = kid;
        proof {
            lemma_pg_count_seq_elem(a.children@, j as int);
            assert(pg_count(kid0) < pg_count(a));
            lemma_same_shape_lh(orig.children@[j as int], kid0);
            lemma_lh_seq_ge(orig.children@, j as int);
            assert(pg_leaf_height(orig) >= 1 + pg_leaf_height(kid0));
            lemma_same_shape_count(orig.children@[j as int], kid0);
            lemma_pg_count_seq_elem(orig.children@, j as int);
        }
        let hc = compute_depths(&mut kid);
        t.children.insert(j, kid);
        let cand = hc + 1;
        if cand > deepest {
            deepest = cand;
        }
        proof {
            assert(t.children@ =~= a.children@.update(j as int, t.children@[j as int]));
            assert(pg_same_shape(kid0, t.children@[j as int]));
            assert forall|u: int| 0 <= u < n implies pg_same_shape(
                #[trigger] orig.children@[u],
                t.children@[u],
            ) by {
                if u == j as int {
                    lemma_same_shape_trans(orig.children@[u], kid0, t.children@[u]);
                }
            }
            lemma_same_shape_count_seq(orig.children@, t.children@);
            assert(pg_count(*t) == pg_count(orig));
            assert(orig.children@.take(j as int + 1) =~= orig.children@.take(j as int).push(
                orig.children@[j as int],
            ));
            lemma_lh_seq_push(orig.children@.take(j as int), orig.children@[j as int]);
            assert(pg_leaf_height(orig.children@[j as int]) == hc);
        }
        j = j + 1;
    }
    t.max_child_depth = deepest;
    proof {
        assert(orig.children@.take(n as int) =~= orig.children@);
        lemma_same_shape_lh_seq(orig.children@, t.children@);
        assert(pg_leaf_height(*t) == pg_leaf_height(orig));
        assert(deepest == pg_leaf_height(orig));
    }
    deepest
}

proof fn lemma_lh_seq_push(s: Seq<PopulatedGoal>, c: PopulatedGoal)
    ensures
        pg_lh_seq(s.push(c)) == if 1 + pg_leaf_height(c) > pg_lh_seq(s) {
            1 + pg_leaf_height(c)
        } else {
            pg_lh_seq(s)
        },
{
    assert(s.push(c).drop_last() =~= s);
    assert(s.push(c).last() == c);
}

/// How many nodes sit exactly `d` levels below `t`.
fn count_nodes_at_depth(t: &PopulatedGoal, d: usize) -> (r: usize)
    requires
        pg_count(*t) <= usize::MAX,
    ensures
        r == pg_count_at_depth(*t, d as nat),
    decreases *t,
{
    if d == 0 {
        return 1;
    }
    let n = t.children.len();
    let mut total: usize = 0;
    let mut j: usize = 0;
    proof {
        assert(t.children@.take(0) =~= Seq::<PopulatedGoal>::empty());
        lemma_pg_count_seq_nonneg(t.children@);
    }
    while j < n
        invariant
            d >= 1,
            pg_count(*t) <= usize::MAX,
            n == t.children@.len(),
            j <= n,
            total == pg_cad_seq(t.children@.take(j as int), (d - 1) as nat),
        decreases n - j,
    {
        proof {
            lemma_pg_count_seq_elem(t.children@, j as int);
        }
        let c = count_nodes_at_depth(&t.children[j], d - 1);
        proof {
            assert(t.children@.take(j as int + 1) =~= t.children@.take(j as int).push(
                t.children@[j as int],
            ));
            lemma_cad_seq_push(t.children@.take(j as int), t.children@[j as int], (d - 1) as nat);
            lemma_cad_seq_take_le(t.children@, j as int + 1, (d - 1) as nat);
            assert(total + c <= pg_count_seq(t.children@));
        }
        total = total + c;
        j = j + 1;
    }
    proof {
        assert(t.children@.take(n as int) =~= t.children@);
    }
    total
}

proof fn lemma_cad_seq_push(s: Seq<PopulatedGoal>, c: PopulatedGoal, d: nat)
    ensures
        pg_cad_seq(s.push(c), d) == pg_cad_seq(s, d) + pg_count_at_depth(c, d),
{
    assert(s.push(c).drop_last() =~= s);
    assert(s.push(c).last() == c);
}

/// Prefix layer counts stay within the whole tree's node count.
proof fn lemma_cad_seq_take_le(s: Seq<PopulatedGoal>, k: int, d: nat)
    requires
        0 <= k <= s.len(),
    ensures
        pg_cad_seq(s.take(k), d) <= pg_count_seq(s),
    decreases k,
{
    if k == 0 {
        assert(s.take(0).len() == 0);
        lemma_pg_count_seq_nonneg(s);
    } else {
        lemma_cad_seq_take_le(s, k - 1, d);
        assert(s.take(k).drop_last() =~= s.take(k - 1));
        assert(s.take(k).last() == s[k - 1]);
        lemma_cad_le_count(s[k - 1], d);
        // Counting argument: the element's count plus the rest's prefix
        // count stay within the total.
        lemma_cad_take_plus_elem(s, k, d);
    }
}

/// `pg_cad_seq(s.take(k-1), d) + pg_count(s[k-1]) <= pg_count_seq(s)`.
proof fn lemma_cad_take_plus_elem(s: Seq<PopulatedGoal>, k: int, d: nat)
    requires
        1 <= k <= s.len(),
    ensures
        pg_cad_seq(s.take(k - 1), d) + pg_count(s[k - 1]) <= pg_count_seq(s),
    decreases s.len(),
{
    if k == s.len() {
        assert(s.take(k - 1) =~= s.drop_last());
        lemma_cad_seq_le_count_seq(s.drop_last(), d);
        assert(s.last() == s[k - 1]);
    } else {
        lemma_cad_take_plus_elem(s.drop_last(), k, d);
        assert(s.drop_last().take(k - 1) =~= s.take(k - 1));
        assert(s.drop_last()[k - 1] == s[k - 1]);
        lemma_pg_count_seq_nonneg(s.drop_last());
        lemma_pg_count_seq_nonneg(s);
    }
}


/// Both layout metric fields are zero on every node.
pub open spec fn pg_metrics_zero(t: PopulatedGoal) -> bool
    decreases t,
{
    t.max_child_depth == 0 && t.max_child_layer_width == 0 && forall|j: int|
        0 <= j < t.children@.len() ==> pg_metrics_zero(#[trigger] t.children@[j])
}

/// Appending zero-metric templates keeps every metric zero.
proof fn lemma_append_metrics_zero(
    a: PopulatedGoal,
    b: PopulatedGoal,
    p: Seq<usize>,
    i: int,
    cs: Seq<PopulatedGoal>,
)
    requires
        pg_appended_seq(a, b, p, i, cs),
        pg_metrics_zero(a),
        forall|j: int|
            0 <= j < cs.len() ==> (#[trigger] cs[j]).max_child_depth == 0
                && cs[j].max_child_layer_width == 0 && cs[j].children@.len() == 0,
    ensures
        pg_metrics_zero(b),
    decreases p.len() - i,
{
    if i >= p.len() {
        assert forall|j: int| 0 <= j < b.children@.len() implies pg_metrics_zero(
            #[trigger] b.children@[j],
        ) by {
            if j < a.children@.len() {
                assert(b.children@[j] == a.children@[j]);
            } else {
                assert(b.children@[j] == cs[j - a.children@.len()]);
            }
        }
    } else {
        lemma_append_metrics_zero(a.children@[p[i] as int], b.children@[p[i] as int], p, i + 1, cs);
        assert forall|j: int| 0 <= j < b.children@.len() implies pg_metrics_zero(
            #[trigger] b.children@[j],
        ) by {
            if j != p[i] as int {
                assert(b.children@[j] == a.children@[j]);
            }
        }
    }
}

/// An append leaves every previously valid path valid, and the node it
/// reaches keeps its non-children fields.
proof fn lemma_appended_seq_old_paths(
    a: PopulatedGoal,
    b: PopulatedGoal,
    p: Seq<usize>,
    i: int,
    cs: Seq<PopulatedGoal>,
    q: Seq<usize>,
)
    requires
        pg_appended_seq(a, b, p, i, cs),
        pg_path_valid(a, q, i),
        0 <= i <= p.len(),
        0 <= i <= q.len(),
    ensures
        pg_path_valid(b, q, i),
        pg_fields_eq(pg_node_at(b, q, i), pg_node_at(a, q, i)),
    decreases q.len() - i,
{
    if i >= q.len() {
    } else if i >= p.len() {
        assert(b.children@[q[i] as int] == a.children@[q[i] as int]);
        lemma_valid_node_at_same(a.children@[q[i] as int], q, i + 1);
    } else if q[i] != p[i] {
        assert(b.children@[q[i] as int] == a.children@[q[i] as int]);
        lemma_valid_node_at_same(a.children@[q[i] as int], q, i + 1);
    } else {
        lemma_appended_seq_old_paths(a.children@[p[i] as int], b.children@[p[i] as int], p, i + 1, cs, q);
    }
}

proof fn lemma_valid_node_at_same(t: PopulatedGoal, q: Seq<usize>, i: int)
    requires
        pg_path_valid(t, q, i),
        0 <= i <= q.len(),
    ensures
        pg_fields_eq(pg_node_at(t, q, i), pg_node_at(t, q, i)),
{
}


/// `a` names a strictly shorter prefix of `b`.
pub open spec fn seq_proper_prefix(a: Seq<usize>, b: Seq<usize>) -> bool {
    a.len() < b.len() && a == b.take(a.len() as int)
}

/// Proper prefixes chain.
proof fn lemma_prefix_trans(a: Seq<usize>, b: Seq<usize>, c: Seq<usize>)
    requires
        seq_proper_prefix(a, b),
        seq_proper_prefix(b, c),
    ensures
        seq_proper_prefix(a, c),
{
    assert forall|d: int| 0 <= d < a.len() implies c[d] == a[d] by {
        assert(b[d] == c.take(b.len() as int)[d]);
        assert(a[d] == b.take(a.len() as int)[d]);
    }
    assert(a =~= c.take(a.len() as int));
}

/// The replacement target itself: the path leads to the new value.
proof fn lemma_replace_at(a: PopulatedGoal, b: PopulatedGoal, p: Seq<usize>, i: int, v: PopulatedGoal)
    requires
        pg_node_replaced(a, b, p, i, v),
        pg_path_valid(a, p, i),
        0 <= i <= p.len(),
    ensures
        pg_path_valid(b, p, i),
        pg_node_at(b, p, i) == v,
    decreases p.len() - i,
{
    if i < p.len() {
        lemma_replace_at(a.children@[p[i] as int], b.children@[p[i] as int], p, i + 1, v);
    }
}

/// Any valid path that does not run through the replaced node keeps its
/// node's own fields.
proof fn lemma_replace_elsewhere_own(
    a: PopulatedGoal,
    b: PopulatedGoal,
    p: Seq<usize>,
    i: int,
    v: PopulatedGoal,
    q: Seq<usize>,
)
    requires
        pg_node_replaced(a, b, p, i, v),
        pg_path_valid(a, q, i),
        0 <= i <= p.len(),
        0 <= i <= q.len(),
        !(q.len() >= p.len() && (forall|d: int| i <= d < p.len() ==> p[d] == q[d])),
    ensures
        pg_path_valid(b, q, i),
        pg_own_eq(pg_node_at(b, q, i), pg_node_at(a, q, i)),
    decreases q.len() - i,
{
    if i >= q.len() {
        assert(i < p.len());
    } else {
        assert(i < p.len()) by {
            if i >= p.len() {
                assert(q.len() >= p.len());
            }
        }
        if q[i] != p[i] {
            assert(b.children@[q[i] as int] == a.children@[q[i] as int]);
            lemma_own_eq_refl(pg_node_at(a.children@[q[i] as int], q, i + 1));
        } else {
            lemma_replace_elsewhere_own(
                a.children@[p[i] as int],
                b.children@[p[i] as int],
                p,
                i + 1,
                v,
                q,
            );
        }
    }
}

proof fn lemma_own_eq_refl(t: PopulatedGoal)
    ensures
        pg_own_eq(t, t),
{
}

} // verus!
