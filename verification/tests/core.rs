use geff_core::arena::IdSet;
use geff_core::cursor::{Cursor, CursorAction, SelectedGoal};
use geff_core::errorlog::ErrorLog;
use geff_core::event::{Event, TimeOfDay, UtcDateTime};
use geff_core::goal::{Goal, GoalEvent, GoalOperationError, GoalRelationship, PopulatedGoal};
use geff_core::profile::goal_traversal::{
    get_goal_parent_id, get_root_goals, partition_tree_with_predicate, populate_goal_tree,
    populate_partitioned_goal_tree, traverse_populated_goal_children, visit_goal_child_tree,
    visit_tree_with_predicate, visit_tree_with_predicate_and_parent,
};
use geff_core::profile::Profile;
use geff_core::query::{ClockTime, GoalQueryEngine, TimeOfDayConfiguration};
use geff_core::appstate::{
    ActiveActivity, AppCommand, AppSideEffect, AppState, CommandlineDisplayCommand, Config,
    DisplayCommand, GoalState, PersistentState,
};
use geff_core::request::{GoalRequest, GoalRequestHandler};

fn test_datetime() -> UtcDateTime {
    // 2022-01-01 01:00:00 UTC
    UtcDateTime {
        seconds_since_epoch: 1640998800,
    }
}

fn assert_set_is(set: &IdSet, expected: &[u32]) {
    assert_eq!(set.len(), expected.len());
    for id in expected {
        assert!(set.contains(*id));
    }
}

#[test]
fn profile_goal_finish_status() {
    let mut profile = Profile::default();

    let datetime = test_datetime();
    let mut profile = profile.with_datetime(datetime);

    let goal_id = profile.0.add_goal(Goal::new("test goal".to_string(), 2));

    assert!(!profile.get_goal(goal_id).unwrap().finished());
    assert_set_is(&profile.unfinished_goals(), &[goal_id.0]);
    assert_set_is(&profile.finished_goals(), &[]);

    profile.get_goal_mut(goal_id).unwrap().add_effort(1);
    assert!(!profile.get_goal(goal_id).unwrap().finished());
    assert_set_is(&profile.unfinished_goals(), &[goal_id.0]);
    assert_set_is(&profile.finished_goals(), &[]);

    profile.get_goal_mut(goal_id).unwrap().add_effort(1);
    assert!(profile.get_goal(goal_id).unwrap().finished());
    assert_set_is(&profile.unfinished_goals(), &[]);
    assert_set_is(&profile.finished_goals(), &[goal_id.0]);

    profile.get_goal_mut(goal_id).unwrap().rescope(4);
    assert!(!profile.get_goal(goal_id).unwrap().finished());
    assert_set_is(&profile.unfinished_goals(), &[goal_id.0]);
    assert_set_is(&profile.finished_goals(), &[]);

    profile.get_goal_mut(goal_id).unwrap().add_effort(1);
    assert!(!profile.get_goal(goal_id).unwrap().finished());
    assert_set_is(&profile.unfinished_goals(), &[goal_id.0]);
    assert_set_is(&profile.finished_goals(), &[]);

    profile.get_goal_mut(goal_id).unwrap().add_effort(1);
    assert!(profile.get_goal(goal_id).unwrap().finished());
    assert_set_is(&profile.unfinished_goals(), &[]);
    assert_set_is(&profile.finished_goals(), &[goal_id.0]);
}

#[test]
fn lib_goal_finish_status() {
    let mut profile = Profile::default();

    let datetime = test_datetime();
    let mut profile = profile.with_datetime(datetime);

    let events = profile.0.handle_request(GoalRequest::Add {
        name: "test goal".to_string(),
        effort_to_complete: 2,
    });
    assert_eq!(events.len(), 1);
    let goal_id = match &events[0] {
        GoalEvent::Add { goal_id } => *goal_id,
        _ => panic!("unexpected goal event contents"),
    };

    assert!(!profile.0.get_goal(goal_id).unwrap().finished());
    assert_set_is(&profile.unfinished_goals(), &[goal_id.0]);
    assert_set_is(&profile.finished_goals(), &[]);

    profile.0.get_goal_mut(goal_id).unwrap().add_effort(1);
    assert!(!profile.0.get_goal(goal_id).unwrap().finished());
    assert_set_is(&profile.unfinished_goals(), &[goal_id.0]);
    assert_set_is(&profile.finished_goals(), &[]);

    profile.0.get_goal_mut(goal_id).unwrap().add_effort(1);
    assert!(profile.0.get_goal(goal_id).unwrap().finished());
    assert_set_is(&profile.unfinished_goals(), &[]);
    assert_set_is(&profile.finished_goals(), &[goal_id.0]);

    profile.0.get_goal_mut(goal_id).unwrap().rescope(4);
    assert!(!profile.0.get_goal(goal_id).unwrap().finished());
    assert_set_is(&profile.unfinished_goals(), &[goal_id.0]);
    assert_set_is(&profile.finished_goals(), &[]);

    profile.0.get_goal_mut(goal_id).unwrap().add_effort(1);
    assert!(!profile.0.get_goal(goal_id).unwrap().finished());
    assert_set_is(&profile.unfinished_goals(), &[goal_id.0]);
    assert_set_is(&profile.finished_goals(), &[]);

    profile.0.get_goal_mut(goal_id).unwrap().add_effort(1);
    assert!(profile.0.get_goal(goal_id).unwrap().finished());
    assert_set_is(&profile.unfinished_goals(), &[]);
    assert_set_is(&profile.finished_goals(), &[goal_id.0]);
}

#[test]
fn profile_goal_deletion() {
    let mut profile = Profile::default();

    let datetime = test_datetime();
    let mut profile = profile.with_datetime(datetime);

    let root_goal = Goal::new("root".to_string(), 0);
    let first_child_goal = Goal::new("first_child".to_string(), 0);
    let second_child_goal = Goal::new("second_child".to_string(), 0);
    let first_grandchild_goal = Goal::new("first_grandchild_child".to_string(), 0);
    let second_grandchild_goal = Goal::new("second_grandchild_child".to_string(), 0);

    let root_id = profile.0.add_goal(root_goal);
    let first_child_id = profile.0.refine_goal(first_child_goal, root_id, 0).unwrap();
    let second_child_id = profile.0.refine_goal(second_child_goal, root_id, 0).unwrap();
    let first_grandchild_id = profile
        .0
        .refine_goal(first_grandchild_goal, second_child_id, 0)
        .unwrap();
    let second_grandchild_id = profile
        .0
        .refine_goal(second_grandchild_goal, second_child_id, 0)
        .unwrap();

    assert_set_is(
        &profile.0.goal_ids(),
        &[
            root_id.0,
            first_child_id.0,
            second_child_id.0,
            first_grandchild_id.0,
            second_grandchild_id.0,
        ],
    );

    assert!(profile.0.remove_goal(second_child_id).is_some());

    assert_set_is(&profile.0.goal_ids(), &[root_id.0, first_child_id.0]);
}

#[test]
fn lib_goal_deletion() {
    let mut profile = Profile::default();

    let datetime = test_datetime();
    let _profile = profile.with_datetime(datetime);
}

#[test]
fn width_depth_scenario() {
    let mut profile = Profile::default();

    let root = profile.add_goal(Goal::new("root".to_string(), 4));
    let a = profile
        .refine_goal(Goal::new("A".to_string(), 0), root, 1)
        .unwrap();
    assert_eq!(profile.get_goal(root).unwrap().effort_to_complete(), 3);
    assert_eq!(profile.get_goal(root).unwrap().children(), &vec![a]);

    let b = profile
        .refine_goal(Goal::new("B".to_string(), 0), root, 0)
        .unwrap();
    assert_eq!(profile.get_goal(root).unwrap().children(), &vec![a, b]);

    let (tree, visited) = populate_goal_tree(&profile.goals, root).unwrap();
    assert_eq!(tree.children.len(), 2);
    assert_eq!(tree.max_child_depth, 1);
    assert_eq!(tree.max_child_layer_width, 2);
    assert_set_is(&visited, &[a.0, b.0]);
}

#[test]
fn focus_scenario() {
    let mut profile = Profile::default();

    let root = profile.add_goal(Goal::new("root".to_string(), 0));
    let c1 = profile
        .refine_goal(Goal::new("c1".to_string(), 0), root, 0)
        .unwrap();
    let c2 = profile
        .refine_goal(Goal::new("c2".to_string(), 0), root, 0)
        .unwrap();
    let g1 = profile
        .refine_goal(Goal::new("g1".to_string(), 0), c1, 0)
        .unwrap();

    let focused = profile.focus_goal(root).unwrap();
    assert_set_is(&focused, &[root.0, c1.0, c2.0, g1.0]);

    let unfocused = profile.unfocus_goal(root).unwrap();
    assert_set_is(&unfocused, &[root.0, c1.0, c2.0, g1.0]);
    assert_eq!(profile.focused_goals().len(), 0);
}

#[test]
fn duplicate_child_rejected() {
    let mut goal = Goal::new("parent".to_string(), 5);
    let child = geff_core::goal::GoalId(7);

    assert!(goal.refine(child, 2).is_ok());
    assert_eq!(goal.effort_to_complete(), 3);

    match goal.refine(child, 1) {
        Err(GoalOperationError::CannotHaveDuplicateChildren(name, offending)) => {
            assert_eq!(name, "parent".to_string());
            assert_eq!(offending, child);
        }
        _ => panic!("a duplicate child must be rejected"),
    }
    // The effort reduction happens even when the child is rejected.
    assert_eq!(goal.effort_to_complete(), 2);
}

#[test]
fn swap_children_missing_child() {
    let mut goal = Goal::new("parent".to_string(), 0);
    let a = geff_core::goal::GoalId(1);
    let b = geff_core::goal::GoalId(2);
    let missing = geff_core::goal::GoalId(9);

    goal.refine(a, 0).unwrap();
    goal.refine(b, 0).unwrap();

    match goal.swap_children(a, missing) {
        Err(GoalOperationError::NoSuchChild(name, offending)) => {
            assert_eq!(name, "parent".to_string());
            assert_eq!(offending, missing);
        }
        _ => panic!("a missing child must be reported"),
    }

    goal.swap_children(a, b).unwrap();
    assert_eq!(goal.children(), &vec![b, a]);
}

#[test]
fn remove_goal_strips_everything() {
    let mut profile = Profile::default();

    let root = profile.add_goal(Goal::new("root".to_string(), 0));
    let child = profile
        .refine_goal(Goal::new("child".to_string(), 0), root, 0)
        .unwrap();
    let bystander = profile.add_goal(Goal::new("bystander".to_string(), 0));

    profile.focus_single_goal(child);
    profile.focus_single_goal(bystander);

    let event_id = profile.add_event(Event::instant_event(
        test_datetime(),
        vec![
            GoalRelationship::WorksOn(child),
            GoalRelationship::Starts(bystander),
        ],
    ));

    let removed = profile.remove_goal(root).unwrap();
    assert_eq!(removed.id, root);
    assert_eq!(removed.children.len(), 1);
    assert_eq!(removed.children[0].id, child);

    assert_set_is(&profile.goal_ids(), &[bystander.0]);
    assert_set_is(profile.focused_goals(), &[bystander.0]);

    let rels = profile.get_event(event_id).unwrap().goal_relationships();
    assert_eq!(rels.len(), 1);
    match rels[0] {
        GoalRelationship::Starts(id) => assert_eq!(id, bystander),
        _ => panic!("only the bystander relationship may remain"),
    }
}

#[test]
fn parent_lookup_and_roots() {
    let mut profile = Profile::default();

    let root1 = profile.add_goal(Goal::new("r1".to_string(), 0));
    let root2 = profile.add_goal(Goal::new("r2".to_string(), 0));
    let child = profile
        .refine_goal(Goal::new("c".to_string(), 0), root1, 0)
        .unwrap();

    assert_eq!(get_goal_parent_id(&profile.goals, child), Some(root1));
    assert_eq!(get_goal_parent_id(&profile.goals, root1), None);

    let roots = get_root_goals(&profile.goals);
    assert_eq!(roots, vec![root1, root2]);

    let populated = profile.populate_goals();
    assert_eq!(populated.len(), 2);
    assert_eq!(populated[0].id, root1);
    assert_eq!(populated[1].id, root2);
    assert_eq!(populated[0].parent_goal_id, None);
}

#[test]
fn traversal_engine_visits_descendants() {
    let mut profile = Profile::default();

    let root = profile.add_goal(Goal::new("root".to_string(), 1));
    let a = profile
        .refine_goal(Goal::new("a".to_string(), 2), root, 0)
        .unwrap();
    let b = profile
        .refine_goal(Goal::new("b".to_string(), 3), a, 0)
        .unwrap();

    let visitor = |_parent: geff_core::goal::GoalId,
                   parent_total: &u32,
                   _child: geff_core::goal::GoalId,
                   child_goal: &Goal|
     -> u32 { parent_total.wrapping_add(child_goal.effort_to_complete()) };
    let visited = visit_goal_child_tree(&profile.goals, root, &visitor, 1u32).unwrap();
    assert_set_is(&visited, &[a.0, b.0]);

    assert!(visit_goal_child_tree(&profile.goals, geff_core::goal::GoalId(99), &visitor, 0u32)
        .is_none());
}

#[test]
fn predicate_visitors_partition() {
    let mut profile = Profile::default();

    let root = profile.add_goal(Goal::new("root".to_string(), 0));
    let done = profile
        .refine_goal(Goal::new("done".to_string(), 0), root, 0)
        .unwrap();
    let open_goal = profile
        .refine_goal(Goal::new("open".to_string(), 5), root, 0)
        .unwrap();

    let finished = |_id: geff_core::goal::GoalId, g: &Goal| -> bool { g.finished() };

    let matching = visit_tree_with_predicate(&profile.goals, root, &finished).unwrap();
    assert_set_is(&matching, &[done.0]);

    let (passing, failing) = partition_tree_with_predicate(&profile.goals, root, &finished)
        .unwrap();
    assert_set_is(&passing, &[done.0]);
    assert_set_is(&failing, &[open_goal.0]);

    let same_as_parent = |_p: geff_core::goal::GoalId,
                          parent_matched: bool,
                          _c: geff_core::goal::GoalId,
                          _g: &Goal|
     -> bool { parent_matched };
    let all = visit_tree_with_predicate_and_parent(&profile.goals, root, &same_as_parent, true)
        .unwrap();
    assert_set_is(&all, &[done.0, open_goal.0]);

    let partitioned = populate_partitioned_goal_tree(&profile.goals, root, &finished).unwrap();
    assert_eq!(partitioned.populated_tree.children.len(), 2);
    assert_eq!(partitioned.satisfies_predicate.len(), 1);
    assert_eq!(partitioned.satisfies_predicate[0].1, done);
    assert_eq!(partitioned.does_not_satisfy_predicate.len(), 1);
    assert_eq!(partitioned.does_not_satisfy_predicate[0].1, open_goal);
    // Metrics stay zeroed in the partitioned snapshot.
    assert_eq!(partitioned.populated_tree.max_child_depth, 0);
}

#[test]
fn deep_tree_metrics() {
    let mut profile = Profile::default();

    let root = profile.add_goal(Goal::new("root".to_string(), 0));
    let a = profile
        .refine_goal(Goal::new("a".to_string(), 0), root, 0)
        .unwrap();
    let _b = profile
        .refine_goal(Goal::new("b".to_string(), 0), root, 0)
        .unwrap();
    let a1 = profile
        .refine_goal(Goal::new("a1".to_string(), 0), a, 0)
        .unwrap();
    let _a2 = profile
        .refine_goal(Goal::new("a2".to_string(), 0), a, 0)
        .unwrap();
    let _a11 = profile
        .refine_goal(Goal::new("a11".to_string(), 0), a1, 0)
        .unwrap();

    let (tree, visited) = populate_goal_tree(&profile.goals, root).unwrap();
    assert_eq!(visited.len(), 5);
    assert_eq!(tree.max_child_depth, 3);
    // Two nodes sit on the widest layer at or below every depth.
    assert_eq!(tree.max_child_layer_width, 2);
    assert_eq!(tree.children.len(), 2);
    let a_node = &tree.children[0];
    assert_eq!(a_node.id, a);
    assert_eq!(a_node.max_child_depth, 2);
    assert_eq!(a_node.parent_goal_id, Some(root));

    let found = traverse_populated_goal_children(&tree, &vec![0usize, 0usize]).unwrap();
    assert_eq!(found.id, a1);
    assert!(traverse_populated_goal_children(&tree, &vec![5usize]).is_none());
}

#[test]
fn request_handler_round_trip() {
    let mut profile = Profile::default();

    let events = profile.handle_request(GoalRequest::Add {
        name: "quest".to_string(),
        effort_to_complete: 3,
    });
    let id = match &events[0] {
        GoalEvent::Add { goal_id } => *goal_id,
        _ => panic!("an add request must yield an add event"),
    };

    let events = profile.handle_request(GoalRequest::AddEffort { goal_id: id, effort: 2 });
    assert_eq!(events.len(), 1);
    assert_eq!(profile.get_goal(id).unwrap().effort_to_date(), 2);

    let events = profile.handle_request(GoalRequest::RemoveEffort { goal_id: id, effort: 5 });
    assert_eq!(events.len(), 1);
    assert_eq!(profile.get_goal(id).unwrap().effort_to_date(), 0);

    let events = profile.handle_request(GoalRequest::Rename {
        goal_id: id,
        new_name: "journey".to_string(),
    });
    match &events[0] {
        GoalEvent::Rename { goal_id, old_name } => {
            assert_eq!(*goal_id, id);
            assert_eq!(old_name, "quest");
        }
        _ => panic!("a rename request must yield a rename event"),
    }
    assert_eq!(profile.get_goal(id).unwrap().name(), "journey");

    let events = profile.handle_request(GoalRequest::Delete(id));
    match &events[0] {
        GoalEvent::Delete { deleted_goal_tree } => assert_eq!(deleted_goal_tree.id, id),
        _ => panic!("a delete request must yield a delete event"),
    }
    assert_eq!(profile.goal_ids().len(), 0);

    // An unknown target is a silent no-op.
    let events = profile.handle_request(GoalRequest::AddEffort { goal_id: id, effort: 1 });
    assert_eq!(events.len(), 0);
}

#[test]
fn cursor_moves_over_forest() {
    let mut profile = Profile::default();
    let root = profile.add_goal(Goal::new("root".to_string(), 0));
    let _c1 = profile
        .refine_goal(Goal::new("c1".to_string(), 0), root, 0)
        .unwrap();
    let _c2 = profile
        .refine_goal(Goal::new("c2".to_string(), 0), root, 0)
        .unwrap();
    let goals = profile.populate_goals();

    let mut cursor = Cursor::default();
    cursor.handle_action(CursorAction::Down, &goals).unwrap();
    let selected = geff_core::cursor::get_selected_goal_id(
        match &cursor {
            Cursor::SelectedGoal(Some(s)) => s,
            _ => panic!("an action on an empty cursor must select the first root"),
        },
        &goals,
    )
    .unwrap();
    assert_eq!(selected, root);

    cursor.handle_action(CursorAction::In, &goals).unwrap();
    cursor.handle_action(CursorAction::Down, &goals).unwrap();
    let selected = match &cursor {
        Cursor::SelectedGoal(Some(s)) => geff_core::cursor::get_selected_goal(s, &goals).unwrap(),
        _ => panic!("the cursor must stay selected"),
    };
    assert_eq!(selected.name, "c2");

    cursor.handle_action(CursorAction::Out, &goals).unwrap();
    cursor.handle_action(CursorAction::Out, &goals).unwrap();
    assert!(matches!(cursor, Cursor::SelectedGoal(None)));

    let sibs = geff_core::cursor::selected_goal_siblings(
        &SelectedGoal {
            root_goal_index: 0,
            child_index_path: vec![1],
        },
        &goals,
    )
    .unwrap();
    assert_eq!(sibs.len(), 2);
}

#[test]
fn error_log_popup() {
    let mut log = ErrorLog::default();
    assert!(log.error_popup().is_none());

    log.push_error("first".to_string());
    assert_eq!(log.error_popup().unwrap(), "first\nPress 'd' to dismiss");

    log.replace_error("second".to_string());
    assert_eq!(log.error_popup().unwrap(), "second\nPress 'd' to dismiss");
    assert_eq!(log.content(), vec!["second".to_string()]);

    log.dismiss();
    assert!(log.error_popup().is_none());
}

#[test]
fn time_of_day_mapping() {
    let config = TimeOfDayConfiguration::default();
    assert_eq!(
        config.map_time(ClockTime { seconds_after_midnight: 3600 }),
        TimeOfDay::Morning
    );
    assert_eq!(
        config.map_time(ClockTime { seconds_after_midnight: 43200 }),
        TimeOfDay::Midday
    );
    assert_eq!(
        config.map_time(ClockTime { seconds_after_midnight: 70000 }),
        TimeOfDay::Evening
    );

    assert!(TimeOfDayConfiguration::from_start_of_midday_and_evening(
        ClockTime { seconds_after_midnight: 50000 },
        ClockTime { seconds_after_midnight: 40000 },
    )
    .is_err());

    assert!(TimeOfDay::Evening.during_or_after(TimeOfDay::Midday));
    assert!(!TimeOfDay::Morning.during_or_after(TimeOfDay::Evening));
}

#[test]
fn focus_single_toggles() {
    let mut profile = Profile::default();
    let root = profile.add_goal(Goal::new("root".to_string(), 0));

    assert!(profile.focus_single_goal(root));
    assert!(!profile.focus_single_goal(geff_core::goal::GoalId(9)));
    assert_set_is(profile.focused_goals(), &[root.0]);

    assert!(profile.unfocus_single_goal(root));
    assert!(!profile.unfocus_single_goal(root));
    assert_set_is(profile.focused_goals(), &[]);
}

#[test]
fn populated_walkers() {
    let mut profile = Profile::default();
    let root = profile.add_goal(Goal::new("root".to_string(), 0));
    let a = profile
        .refine_goal(Goal::new("a".to_string(), 0), root, 0)
        .unwrap();
    let _b = profile
        .refine_goal(Goal::new("b".to_string(), 0), root, 0)
        .unwrap();
    let _a1 = profile
        .refine_goal(Goal::new("a1".to_string(), 0), a, 0)
        .unwrap();

    let (mut tree, _) = populate_goal_tree(&profile.goals, root).unwrap();

    let collect = |_pp: &Vec<usize>, depth: &usize, _cp: &Vec<usize>, _g: &PopulatedGoal| -> usize {
        depth + 1
    };
    let paths = geff_core::profile::goal_traversal::visit_populated_goal_children(
        &tree, &collect, 0usize,
    );
    assert_eq!(paths.len(), 3);
    for p in &paths {
        assert!(!p.is_empty());
    }

    // Overwrite every node's width from a propagated widths list.
    let mut visitor = geff_core::profile::goal_traversal::LayerWidthVisitor {
        widths: vec![9usize, 8, 7],
    };
    geff_core::profile::goal_traversal::visit_populated_goal_children_mut(
        &mut tree,
        &mut visitor,
        (),
    );
    assert_eq!(tree.children[0].max_child_layer_width, 8);
    assert_eq!(tree.children[0].children[0].max_child_layer_width, 7);

    // Raise the depth metric along one root-to-leaf path.
    let mut depth_visitor =
        geff_core::profile::goal_traversal::DepthRaiseVisitor { leaf_depth: 5 };
    geff_core::profile::goal_traversal::visit_goal_path_from(
        &mut tree,
        &vec![0usize, 0usize],
        &mut depth_visitor,
    );
    assert_eq!(tree.max_child_depth, 5);
    assert_eq!(tree.children[0].max_child_depth, 4);
    assert_eq!(tree.children[0].children[0].max_child_depth, 3);

    let found = geff_core::profile::goal_traversal::traverse_populated_goal_children_mut(
        &mut tree,
        &vec![1usize],
    )
    .unwrap();
    found.max_child_depth = 42;
    assert_eq!(tree.children[1].max_child_depth, 42);
}

#[test]
fn remove_effort_floors_at_zero() {
    let mut goal = Goal::new("g".to_string(), 10);
    goal.add_effort(3);
    goal.remove_effort(100);
    assert_eq!(goal.effort_to_date(), 0);
    goal.rescope_by_finish(4);
    assert_eq!(goal.effort_to_date(), 4);
    assert_eq!(goal.effort_to_complete(), 4);
    assert!(goal.finished());
    let old = goal.rename("h".to_string());
    assert_eq!(old, "g".to_string());
    assert_eq!(goal.name(), "h");
}

#[test]
fn app_state_commands() {
    let mut app = AppState::Unloaded;
    assert!(matches!(app.try_into_frontend(), Ok(None)));
    assert!(matches!(
        app.handle_command(AppCommand::LoadRequest),
        Some(AppSideEffect::LoadFromDisk)
    ));

    let mut profile = Profile::default();
    let root = profile.add_goal(Goal::new("root".to_string(), 2));
    let populated = profile.populate_goals();
    app = AppState::Loaded {
        goal_state: GoalState {
            persistent_state: PersistentState {
                profile,
                goal_event_history: Vec::new(),
                config: Config::default(),
            },
            cursor: Cursor::default(),
            populated_goals: populated,
            current_datetime: test_datetime(),
        },
        active_activity: ActiveActivity::Help,
    };

    app.handle_switch_active_state(ActiveActivity::Goals);
    let frontend = app.try_into_frontend().unwrap().unwrap();
    assert!(matches!(frontend.active_activity, ActiveActivity::Goals));
    assert_eq!(frontend.goal_state.populated_goals.len(), 1);
    assert_eq!(frontend.goal_state.selected_goal_id, None);
    assert_eq!(frontend.goal_state.config.display.commandline.font_size_pixels, 14);

    let effect = app.handle_command(AppCommand::GoalRequest(GoalRequest::AddEffort {
        goal_id: root,
        effort: 1,
    }));
    assert!(effect.is_none());
    let effect = app.handle_command(AppCommand::DisplayCommand(DisplayCommand::Commandline(
        CommandlineDisplayCommand::ChangeFontSize(18),
    )));
    assert!(effect.is_none());
    let effect = app.handle_command(AppCommand::CursorAction(CursorAction::Down));
    assert!(effect.is_none());
    let effect = app.handle_command(AppCommand::SaveRequest);
    assert!(matches!(effect, Some(AppSideEffect::SaveToDisk)));

    match &app {
        AppState::Loaded { goal_state, .. } => {
            assert_eq!(goal_state.persistent_state.goal_event_history.len(), 1);
            assert_eq!(
                goal_state
                    .persistent_state
                    .config
                    .display
                    .commandline
                    .font_size_pixels,
                18
            );
            assert_eq!(
                goal_state
                    .persistent_state
                    .profile
                    .get_goal(root)
                    .unwrap()
                    .effort_to_date(),
                1
            );
        }
        _ => panic!("the application must stay loaded"),
    }
}
