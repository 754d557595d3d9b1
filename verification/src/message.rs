//! What happens while the program runs, and what is done about it.
use vstd::prelude::*;

use crate::diff::FileDiff;
use crate::input::AppAction;
use crate::input::Event;

verus! {

/// How often to look for changes where not all directories can be watched, in seconds.
pub const FALLBACK_REFRESH_SECS: u64 = 5;

/// What came of fetching.
#[derive(Debug)]
pub struct FetchResult {
    /// Whether the remote branch has changes that conflict.
    pub has_conflicts: bool,
    /// The commit that the branches have in common now, where it is known.
    pub new_merge_base: Option<String>,
}

/// A diff that was made anew.
#[derive(Debug)]
pub struct RefreshResult {
    pub files: Vec<FileDiff>,
    pub base_identifier: String,
    pub revision_id: Option<String>,
}

/// What came of making the diff anew.
#[derive(Debug)]
pub enum RefreshOutcome {
    Success(RefreshResult),
    /// Only one file was looked at.
    SingleFile { path: String, diff: Option<FileDiff>, revision_id: Option<String> },
    /// It was given up on purpose.
    Cancelled,
    Error(String),
}

/// What happened.
#[derive(Debug)]
pub enum Message {
    Input(AppAction),
    /// Input while text to search for is entered.
    SearchInput(Event),
    RefreshCompleted(Box<RefreshOutcome>),
    /// Files changed, by their paths.
    FileChanged(Vec<String>),
    FetchCompleted(FetchResult),
    /// Time passed.
    Tick,
}

/// What is made anew of the diff.
#[derive(Debug, PartialEq, Eq)]
pub enum RefreshTrigger {
    Nothing,
    Full,
    SingleFile(String),
}

impl Default for RefreshTrigger {
    fn default() -> (r: Self)
        ensures
            r is Nothing,
    {
        RefreshTrigger::Nothing
    }
}

/// Whether to go on.
#[derive(Clone, Copy, Debug, PartialEq, Eq, Structural)]
pub enum LoopAction {
    Continue,
    Quit,
    /// Find out anew which version control system there is.
    RestartVcs,
}

impl Default for LoopAction {
    fn default() -> (r: Self)
        ensures
            r is Continue,
    {
        LoopAction::Continue
    }
}

/// What is done about something that happened.
#[derive(Debug)]
pub struct UpdateResult {
    pub loop_action: LoopAction,
    pub refresh: RefreshTrigger,
    pub trigger_fetch: bool,
    pub needs_redraw: bool,
}

impl Default for UpdateResult {
    fn default() -> (r: Self)
        ensures
            r.loop_action is Continue,
            r.refresh is Nothing,
            !r.trigger_fetch,
            !r.needs_redraw,
    {
        UpdateResult {
            loop_action: LoopAction::Continue,
            refresh: RefreshTrigger::Nothing,
            trigger_fetch: false,
            needs_redraw: false,
        }
    }
}

} // verus!
