//! Application-level state for a shell around the goal store: display
//! configuration, the command set, and the loaded/unloaded state machine.
//! The shell performs the actual loading, saving and rendering; everything
//! that merely decides and mutates state lives here.

use vstd::prelude::*;
use crate::arena::IdSet;
use crate::cursor::{get_selected_goal_id, selection_node, selection_valid, Cursor, CursorAction, SelectedGoal};
use crate::event::UtcDateTime;
use crate::goal::{GoalEvent, GoalId, PopulatedGoal};
use crate::profile::Profile;
use crate::request::{GoalRequest, GoalRequestHandler};

verus! {

/// How the command line is drawn.
#[derive(Debug, Clone)]
pub struct CommandlineDisplayConfig {
    pub font_size_pixels: u32,
    pub background_color: String,
    pub font_color: String,
}

impl Default for CommandlineDisplayConfig {
    fn default() -> (r: CommandlineDisplayConfig)
        ensures
            r.font_size_pixels == 14,
            r.background_color@ == "gray"@,
            r.font_color@ == "black"@,
    {
        CommandlineDisplayConfig {
            font_size_pixels: 14,
            background_color: "gray".to_string(),
            font_color: "black".to_string(),
        }
    }
}

/// A change to the command line's appearance.
#[derive(Debug, Clone)]
pub enum CommandlineDisplayCommand {
    ChangeFontSize(u32),
    ChangeBackgroundColor(String),
    ChangeFontColor(String),
}

/// A change to some part of the display.
#[derive(Debug, Clone)]
pub enum DisplayCommand {
    Commandline(CommandlineDisplayCommand),
}

impl From<CommandlineDisplayCommand> for DisplayCommand {
    fn from(value: CommandlineDisplayCommand) -> (r: DisplayCommand) {
        DisplayCommand::Commandline(value)
    }
}

impl vstd::std_specs::convert::FromSpecImpl<CommandlineDisplayCommand> for DisplayCommand {
    open spec fn obeys_from_spec() -> bool {
        true
    }

    open spec fn from_spec(value: CommandlineDisplayCommand) -> DisplayCommand {
        DisplayCommand::Commandline(value)
    }
}

/// All display settings.
#[derive(Debug, Clone)]
pub struct DisplayConfig {
    pub commandline: CommandlineDisplayConfig,
}

impl Default for DisplayConfig {
    fn default() -> (r: DisplayConfig)
        ensures
            r.commandline.font_size_pixels == 14,
    {
        DisplayConfig { commandline: Default::default() }
    }
}

/// The shell's whole configuration.
#[derive(Debug, Clone)]
pub struct Config {
    pub display: DisplayConfig,
}

impl Default for Config {
    fn default() -> (r: Config)
        ensures
            r.display.commandline.font_size_pixels == 14,
    {
        Config { display: Default::default() }
    }
}

/// Everything a shell can ask the application to do.
#[derive(Debug)]
pub enum AppCommand {
    GoalRequest(GoalRequest),
    CursorAction(CursorAction),
    DisplayCommand(DisplayCommand),
    LoadRequest,
    SaveRequest,
}

impl From<GoalRequest> for AppCommand {
    fn from(value: GoalRequest) -> (r: AppCommand) {
        AppCommand::GoalRequest(value)
    }
}

impl vstd::std_specs::convert::FromSpecImpl<GoalRequest> for AppCommand {
    open spec fn obeys_from_spec() -> bool {
        true
    }

    open spec fn from_spec(value: GoalRequest) -> AppCommand {
        AppCommand::GoalRequest(value)
    }
}

/// Which screen the shell is showing.
#[derive(Debug, Clone, Copy, PartialEq, Eq, Structural)]
pub enum ActiveActivity {
    Goals,
    Help,
}

/// A control command of the shell's command line.
#[derive(Debug, Clone, Copy)]
pub enum ControlCommand {
    SwitchActivity(ActiveActivity),
    Save,
    Quit,
}

/// Why saving the persistent state failed; the shell fills in the text.
#[derive(Debug, Clone)]
pub enum SaveError {
    WriteError(String),
    SerializeError(String),
}

/// What the shell persists between runs: the store, the event history, and
/// its own configuration.
#[derive(Debug)]
pub struct PersistentState<C> {
    pub profile: Profile,
    pub goal_event_history: Vec<GoalEvent>,
    pub config: C,
}

/// The loaded application data.
#[derive(Debug)]
pub struct GoalState {
    pub persistent_state: PersistentState<Config>,
    pub cursor: Cursor,
    pub populated_goals: Vec<PopulatedGoal>,
    pub current_datetime: UtcDateTime,
}

/// The application: not yet loaded, loaded, or failed.
#[derive(Debug)]
pub enum AppState {
    Loaded { goal_state: GoalState, active_activity: ActiveActivity },
    Unloaded,
    Error(String),
}

/// The loaded data in the form handed to a renderer.
#[derive(Debug)]
pub struct FrontendGoalState {
    pub populated_goals: Vec<PopulatedGoal>,
    pub selected_goal_id: Option<GoalId>,
    pub focused_goals: IdSet,
    pub config: Config,
}

/// The application state in the form handed to a renderer.
#[derive(Debug)]
pub struct FrontendAppState {
    pub goal_state: FrontendGoalState,
    pub active_activity: ActiveActivity,
}

/// Outside work that a command needs from the shell: the store must be
/// loaded from disk, or saved to it.
#[derive(Debug, Clone, Copy, PartialEq, Eq, Structural)]
pub enum AppSideEffect {
    LoadFromDisk,
    SaveToDisk,
}

/// When a goal request cannot overflow an effort tally.  The id-space
/// bound is part of the loaded state's own condition.
pub open spec fn goal_request_guard(pre: Profile, request: GoalRequest) -> bool {
    match request {
        GoalRequest::AddEffort { goal_id, effort } => pre.goals@.contains_key(goal_id.0)
            ==> pre.goals@[goal_id.0].effort_to_date + effort <= u32::MAX,
        _ => true,
    }
}

impl AppState {
    /// Switch the visible screen; nothing happens unless loaded.
    pub fn handle_switch_active_state(&mut self, new_active_activity: ActiveActivity)
        ensures
            *old(self) matches AppState::Loaded { goal_state: _, active_activity: _ }
                ==> (*final(self) matches AppState::Loaded { goal_state: g2, active_activity: a2 }
                && a2 == new_active_activity && g2
                == (*old(self))->Loaded_goal_state),
            !(*old(self) matches AppState::Loaded { goal_state: _, active_activity: _ })
                ==> *final(self) == *old(self),
    {
        match self {
            AppState::Loaded { goal_state: _, active_activity } => {
                *active_activity = new_active_activity;
            },
            _ => {},
        }
    }

    /// Project the state for a renderer: the populated forest, the selected
    /// goal (if the cursor resolves), the focus set and the configuration.
    /// A failed state reports its message; an unloaded one yields nothing.
    pub fn try_into_frontend(&self) -> (r: Result<Option<FrontendAppState>, String>)
        ensures
            match r {
                Ok(Some(f)) => (*self) matches AppState::Loaded {
                    goal_state: g,
                    active_activity: a,
                } && f.active_activity == a && f.goal_state.populated_goals@.len()
                    == g.populated_goals@.len() && f.goal_state.focused_goals@
                    == g.persistent_state.profile.focused_goals@ && (match f
                    .goal_state
                    .selected_goal_id {
                    Some(id) => g.cursor matches Cursor::SelectedGoal(Some(sel))
                        && selection_valid(sel, g.populated_goals@) && id == selection_node(
                        sel,
                        g.populated_goals@,
                    ).id,
                    None => !(g.cursor matches Cursor::SelectedGoal(Some(_))),
                }),
                Ok(None) => *self is Unloaded,
                Err(e) => match *self {
                    AppState::Error(msg) => e@ == msg@,
                    AppState::Loaded { goal_state: g, active_activity: _ } => g.cursor matches
                        Cursor::SelectedGoal(Some(sel)) && !selection_valid(
                        sel,
                        g.populated_goals@,
                    ),
                    AppState::Unloaded => false,
                },
            },
    {
        match self {
            AppState::Loaded { goal_state, active_activity } => {
                let selected_goal_id = match &goal_state.cursor {
                    Cursor::SelectedGoal(Some(selected_goal)) => {
                        match get_selected_goal_id(selected_goal, &goal_state.populated_goals) {
                            Ok(id) => Some(id),
                            Err(_) => {
                                return Err(
                                    "error attempting to resolve the selected goal".to_string(),
                                );
                            },
                        }
                    },
                    Cursor::SelectedGoal(None) => None,
                };
                let mut populated_goals: Vec<PopulatedGoal> = Vec::new();
                let n = goal_state.populated_goals.len();
                let mut i: usize = 0;
                while i < n
                    invariant
                        n == goal_state.populated_goals@.len(),
                        i <= n,
                        populated_goals@.len() == i,
                    decreases n - i,
                {
                    populated_goals.push(goal_state.populated_goals[i].clone());
                    i = i + 1;
                }
                Ok(
                    Some(
                        FrontendAppState {
                            goal_state: FrontendGoalState {
                                populated_goals,
                                selected_goal_id,
                                focused_goals: goal_state
                                    .persistent_state
                                    .profile
                                    .focused_goals
                                    .clone(),
                                config: goal_state.persistent_state.config.clone(),
                            },
                            active_activity: *active_activity,
                        },
                    ),
                )
            },
            AppState::Unloaded => Ok(None),
            AppState::Error(e) => Err(e.clone()),
        }
    }

    /// Handle everything a command decides without touching the outside
    /// world; loading and saving are handed back to the shell as the side
    /// effect it must perform.  A goal request advances the store exactly as
    /// `handle_request` describes, appends the resulting event to the
    /// history, refreshes the populated snapshot and clears a cursor that no
    /// longer resolves; a cursor action moves only the cursor; a display
    /// command rewrites only the configuration.
    pub fn handle_command(&mut self, command: AppCommand) -> (r: Option<AppSideEffect>)
        requires
            *old(self) matches AppState::Loaded { goal_state: g, active_activity: _ }
                ==> g.persistent_state.profile.wf()
                && g.persistent_state.profile.goal_id_count < u32::MAX,
        ensures
            match (*old(self), *final(self)) {
                (
                    AppState::Loaded { goal_state: g, active_activity: _ },
                    AppState::Loaded { goal_state: g2, active_activity: _ },
                ) => g2.persistent_state.profile.wf(),
                _ => true,
            },
            (r == Some(AppSideEffect::LoadFromDisk)) <==> command is LoadRequest,
            (r == Some(AppSideEffect::SaveToDisk)) <==> (command is SaveRequest && *old(self)
                matches AppState::Loaded { goal_state: _, active_activity: _ }),
            command is LoadRequest || command is SaveRequest ==> *final(self) == *old(self),
            !(*old(self) matches AppState::Loaded { goal_state: _, active_activity: _ })
                ==> *final(self) == *old(self),
            match *old(self) {
                AppState::Loaded { goal_state: g, active_activity: a } => match command {
                    AppCommand::GoalRequest(req) => (*final(self) matches AppState::Loaded {
                        goal_state: g2,
                        active_activity: a2,
                    } && a2 == a && g2.current_datetime == g.current_datetime && {
                        let pre = g.persistent_state.profile;
                        let post = g2.persistent_state.profile;
                        let hist0 = g.persistent_state.goal_event_history@;
                        let hist1 = g2.persistent_state.goal_event_history@;
                        &&& g2.persistent_state.config == g.persistent_state.config
                        &&& if !goal_request_guard(pre, req) {
                            post == pre && hist1 == hist0 && g2.populated_goals
                                == g.populated_goals && g2.cursor == g.cursor
                        } else {
                            &&& if crate::request::request_applies(pre, req) {
                                hist1.len() == hist0.len() + 1 && hist1.subrange(
                                    0,
                                    hist0.len() as int,
                                ) == hist0 && crate::request::request_effect(
                                    pre,
                                    post,
                                    req,
                                    hist1.last(),
                                )
                            } else {
                                post == pre && hist1 == hist0
                            }
                            &&& forall|i: int|
                                0 <= i < g2.populated_goals@.len() ==> {
                                    let t = #[trigger] g2.populated_goals@[i];
                                    &&& crate::profile::goal_traversal::pg_matches(
                                        post.goals@,
                                        t,
                                    )
                                    &&& t.parent_goal_id is None
                                    &&& post.goals@.contains_key(t.id.0)
                                }
                            &&& (g2.cursor matches Cursor::SelectedGoal(Some(sel))
                                ==> selection_valid(sel, g2.populated_goals@))
                        }
                    }),
                    AppCommand::CursorAction(_) => (*final(self) matches AppState::Loaded {
                        goal_state: g2,
                        active_activity: a2,
                    } && a2 == a && g2.persistent_state.profile
                        == g.persistent_state.profile && g2.persistent_state.goal_event_history
                        == g.persistent_state.goal_event_history && g2.persistent_state.config
                        == g.persistent_state.config && g2.populated_goals == g.populated_goals
                        && g2.current_datetime == g.current_datetime),
                    AppCommand::DisplayCommand(DisplayCommand::Commandline(c)) => (*final(self)
                        matches AppState::Loaded { goal_state: g2, active_activity: a2 } && a2 == a
                        && g2.persistent_state.profile == g.persistent_state.profile
                        && g2.persistent_state.goal_event_history
                        == g.persistent_state.goal_event_history && g2.populated_goals
                        == g.populated_goals && g2.cursor == g.cursor && g2.current_datetime
                        == g.current_datetime && {
                        let c0 = g.persistent_state.config.display.commandline;
                        let c1 = g2.persistent_state.config.display.commandline;
                        match c {
                            CommandlineDisplayCommand::ChangeFontSize(fs) => c1.font_size_pixels
                                == fs && c1.background_color == c0.background_color
                                && c1.font_color == c0.font_color,
                            CommandlineDisplayCommand::ChangeBackgroundColor(color) => c1.background_color
                                == color && c1.font_size_pixels == c0.font_size_pixels
                                && c1.font_color == c0.font_color,
                            CommandlineDisplayCommand::ChangeFontColor(color) => c1.font_color
                                == color && c1.font_size_pixels == c0.font_size_pixels
                                && c1.background_color == c0.background_color,
                        }
                    }),
                    AppCommand::LoadRequest | AppCommand::SaveRequest => true,
                },
                _ => true,
            },
    {
        match self {
            AppState::Loaded { goal_state, active_activity: _ } => {
                match command {
                    AppCommand::LoadRequest => Some(AppSideEffect::LoadFromDisk),
                    AppCommand::SaveRequest => Some(AppSideEffect::SaveToDisk),
                    AppCommand::GoalRequest(goal_request) => {
                        let can_add_effort = match &goal_request {
                            GoalRequest::AddEffort { goal_id, effort } => {
                                match goal_state.persistent_state.profile.get_goal(*goal_id) {
                                    Some(g) => g.effort_to_date() <= u32::MAX - *effort,
                                    None => true,
                                }
                            },
                            _ => true,
                        };
                        if can_add_effort {
                            let events = goal_state
                                .persistent_state
                                .profile
                                .handle_request(goal_request);
                            let mut events = events;
                            if events.len() > 0 {
                                let e = events.remove(0);
                                goal_state.persistent_state.goal_event_history.push(e);
                            }
                            goal_state.populated_goals = goal_state
                                .persistent_state
                                .profile
                                .populate_goals();
                            let cursor_resolves = match &goal_state.cursor {
                                Cursor::SelectedGoal(Some(selected_goal)) => {
                                    match get_selected_goal_id(
                                        selected_goal,
                                        &goal_state.populated_goals,
                                    ) {
                                        Ok(_) => true,
                                        Err(_) => false,
                                    }
                                },
                                Cursor::SelectedGoal(None) => true,
                            };
                            if !cursor_resolves {
                                goal_state.cursor = Cursor::SelectedGoal(None);
                            }
                        }
                        None
                    },
                    AppCommand::CursorAction(cursor_action) => {
                        let _ = goal_state.cursor.handle_action(
                            cursor_action,
                            &goal_state.populated_goals,
                        );
                        None
                    },
                    AppCommand::DisplayCommand(DisplayCommand::Commandline(command)) => {
                        match command {
                            CommandlineDisplayCommand::ChangeFontSize(fs) => {
                                goal_state
                                    .persistent_state
                                    .config
                                    .display
                                    .commandline
                                    .font_size_pixels = fs;
                            },
                            CommandlineDisplayCommand::ChangeBackgroundColor(color) => {
                                goal_state
                                    .persistent_state
                                    .config
                                    .display
                                    .commandline
                                    .background_color = color;
                            },
                            CommandlineDisplayCommand::ChangeFontColor(color) => {
                                goal_state.persistent_state.config.display.commandline.font_color =
                                    color;
                            },
                        }
                        None
                    },
                }
            },
            _ => {
                match command {
                    AppCommand::LoadRequest => Some(AppSideEffect::LoadFromDisk),
                    _ => None,
                }
            },
        }
    }
}

} // verus!
