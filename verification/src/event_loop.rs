//! How the program runs: what it starts with, what it waits for, and what it does next.
use vstd::prelude::*;
use vstd::string::*;

use crate::app::ComparisonContext;
use crate::app::VcsBackend;
use crate::input::event_action;
use crate::input::handle_event;
use crate::input::AppAction;
use crate::input::Event;
use crate::input::KeyCode;
use crate::input::KeyModifiers;
use crate::input::key_action;
use crate::message::FetchResult;
use crate::message::LoopAction;
use crate::message::Message;
use crate::message::RefreshOutcome;
use crate::message::RefreshResult;
use crate::message::RefreshTrigger;
use crate::message::UpdateResult;
use crate::style::Rect;

verus! {

/// How often to look for a repository, in nanoseconds.
pub const CHECK_INTERVAL_NANOS: u128 = 1_000_000_000;

/// What is shown as long as there is no repository.
pub const WAITING_TEXT: &'static str = "Not a repository.\n\nWaiting for git init or jj init...";

/// Where the diff goes.
#[derive(Clone, Copy, Debug, PartialEq, Eq, Structural)]
pub enum OutputMode {
    /// To the screen.
    Tui,
    /// To the standard output, as it would be shown.
    Print,
    /// To the standard output, as a patch.
    Diff,
}

impl Default for OutputMode {
    fn default() -> (r: Self)
        ensures
            r is Tui,
    {
        OutputMode::Tui
    }
}

/// Where the diff goes, by the flags that were given.
pub fn output_mode(print: bool, diff: bool) -> (r: OutputMode)
    ensures
        r == (if print {
            OutputMode::Print
        } else if diff {
            OutputMode::Diff
        } else {
            OutputMode::Tui
        }),
{
    if print {
        OutputMode::Print
    } else if diff {
        OutputMode::Diff
    } else {
        OutputMode::Tui
    }
}

/// What to start with.
#[derive(Clone, Copy, Debug, PartialEq, Eq, Structural)]
pub enum Start {
    /// There is nothing to write out.
    NotARepository,
    Print,
    Diff,
    /// Draw so many frames and measure it.
    Benchmark(usize),
    Run,
    /// Wait for a repository.
    Wait,
}

/// What to start with. The screen can wait for a repository, the other modes cannot.
pub fn start(found: bool, mode: OutputMode, benchmark: Option<usize>) -> (r: Start)
    ensures
        r == (match mode {
            OutputMode::Print => if found {
                Start::Print
            } else {
                Start::NotARepository
            },
            OutputMode::Diff => if found {
                Start::Diff
            } else {
                Start::NotARepository
            },
            OutputMode::Tui => if !found {
                Start::Wait
            } else {
                match benchmark {
                    Some(frames) => Start::Benchmark(frames),
                    None => Start::Run,
                }
            },
        }),
{
    if !found {
        return match mode {
            OutputMode::Tui => Start::Wait,
            _ => Start::NotARepository,
        };
    }
    match mode {
        OutputMode::Print => Start::Print,
        OutputMode::Diff => Start::Diff,
        OutputMode::Tui => match benchmark {
            Some(frames) => Start::Benchmark(frames),
            None => Start::Run,
        },
    }
}

/// Whether a key ends the wait for a repository.
pub open spec fn ends_waiting(code: KeyCode, modifiers: KeyModifiers) -> bool {
    code == KeyCode::Char('q') || code is Esc || (code == KeyCode::Char('c') && modifiers
        == KeyModifiers::control())
}

/// What came while waiting for a repository.
#[derive(Clone, Copy, Debug, PartialEq, Eq, Structural)]
pub enum WaitEvent {
    Input(Event),
    /// So many nanoseconds passed since a repository was looked for.
    Elapsed(u128),
    /// A repository was looked for.
    Looked { found: bool },
}

/// What to do next while waiting for a repository.
#[derive(Clone, Copy, Debug, PartialEq, Eq, Structural)]
pub enum WaitStep {
    Quit,
    GoOn,
    Look,
    Run,
}

/// What to do next while waiting for a repository: look for one now and then, run once there is
/// one, and stop when asked to.
pub fn wait_for_vcs(event: WaitEvent) -> (r: WaitStep)
    ensures
        r == (match event {
            WaitEvent::Input(Event::Key { code, modifiers }) => if ends_waiting(code, modifiers) {
                WaitStep::Quit
            } else {
                WaitStep::GoOn
            },
            WaitEvent::Input(_) => WaitStep::GoOn,
            WaitEvent::Elapsed(nanos) => if nanos >= CHECK_INTERVAL_NANOS {
                WaitStep::Look
            } else {
                WaitStep::GoOn
            },
            WaitEvent::Looked { found } => if found {
                WaitStep::Run
            } else {
                WaitStep::GoOn
            },
        }),
{
    match event {
        WaitEvent::Input(Event::Key { code, modifiers }) => {
            let with_control = !modifiers.shift && modifiers.control && !modifiers.other;
            let ends = match code {
                KeyCode::Char('q') | KeyCode::Esc => true,
                KeyCode::Char('c') => with_control,
                _ => false,
            };
            if ends {
                WaitStep::Quit
            } else {
                WaitStep::GoOn
            }
        },
        WaitEvent::Input(_) => WaitStep::GoOn,
        WaitEvent::Elapsed(nanos) => if nanos >= CHECK_INTERVAL_NANOS {
            WaitStep::Look
        } else {
            WaitStep::GoOn
        },
        WaitEvent::Looked { found } => if found {
            WaitStep::Run
        } else {
            WaitStep::GoOn
        },
    }
}

/// Where the text is shown that there is no repository: in the middle of the screen.
pub fn waiting_area(area: Rect) -> (r: Rect)
    ensures
        r.x == 0,
        r.y == (if area.height / 2 >= 2 {
            area.height / 2 - 2
        } else {
            0
        }),
        r.width == area.width,
        r.height == 4,
{
    Rect { x: 0, y: (area.height / 2).saturating_sub(2), width: area.width, height: 4 }
}

/// What is compared as long as the repository does not tell.
pub fn fallback_comparison(backend: VcsBackend) -> (r: ComparisonContext)
    ensures
        r.from_label@ == "base"@,
        r.to_label@ == "working copy"@,
        r.bookmark_name is None,
        r.stack_position is None,
        r.vcs_backend == backend,
        r.upstream_files is None,
{
    ComparisonContext {
        from_label: String::from_str("base"),
        to_label: String::from_str("working copy"),
        bookmark_name: None,
        stack_position: None,
        vcs_backend: backend,
        upstream_files: None,
    }
}

/// Whether the program runs once more after it stopped: it does where it stopped to find out which
/// version control system there is, and found one.
pub fn runs_again(stopped: LoopAction, found: bool) -> (r: bool)
    requires
        !(stopped is Continue),
    ensures
        r == (stopped is RestartVcs && found),
{
    match stopped {
        LoopAction::RestartVcs => found,
        _ => false,
    }
}

/// How many rows of the diff are visible before the first frame is drawn.
pub fn first_viewport_height(height: u16, status_height: u16) -> (r: usize)
    requires
        status_height <= height,
    ensures
        r == (if height - status_height >= 2 {
            height - status_height - 2
        } else {
            0
        }),
{
    (height - status_height).saturating_sub(2) as usize
}

/// What is done in a frame while drawing is measured.
pub open spec fn measured_action(frame: nat) -> AppAction {
    let turn = frame % 20;
    if turn <= 4 {
        AppAction::ScrollDown(3)
    } else if turn <= 9 {
        AppAction::ScrollUp(2)
    } else if turn == 10 {
        AppAction::NextFile
    } else if turn == 11 {
        AppAction::PrevFile
    } else if turn == 12 {
        AppAction::CycleViewMode
    } else if turn == 13 {
        AppAction::GoToBottom
    } else if turn == 14 {
        AppAction::GoToTop
    } else if turn == 15 {
        AppAction::PageDown
    } else if turn == 16 {
        AppAction::PageUp
    } else {
        AppAction::ScrollDown(1)
    }
}

/// What is done in a frame while drawing is measured.
pub fn benchmark_action(frame: usize) -> (r: AppAction)
    ensures
        r == measured_action(frame as nat),
{
    match frame % 20 {
        0 | 1 | 2 | 3 | 4 => AppAction::ScrollDown(3),
        5 | 6 | 7 | 8 | 9 => AppAction::ScrollUp(2),
        10 => AppAction::NextFile,
        11 => AppAction::PrevFile,
        12 => AppAction::CycleViewMode,
        13 => AppAction::GoToBottom,
        14 => AppAction::GoToTop,
        15 => AppAction::PageDown,
        16 => AppAction::PageUp,
        _ => AppAction::ScrollDown(1),
    }
}

/// How far the diff is scrolled after an action that scrolls it by some lines.
pub fn scrolled(offset: usize, action: AppAction, max_scroll: usize) -> (r: usize)
    ensures
        r == (match action {
            AppAction::ScrollDown(n) => if offset + n <= max_scroll {
                offset + n
            } else {
                max_scroll as int
            },
            AppAction::ScrollUp(n) => if n <= offset {
                offset - n
            } else {
                0
            },
            _ => offset as int,
        }),
{
    match action {
        AppAction::ScrollDown(n) => {
            let wanted = offset.saturating_add(n);
            if wanted <= max_scroll {
                wanted
            } else {
                max_scroll
            }
        },
        AppAction::ScrollUp(n) => offset.saturating_sub(n),
        _ => offset,
    }
}

/// The input that something is done about.
pub open spec fn input_messages(event: Option<Event>) -> Seq<Message> {
    match event {
        Some(event) => if event_action(event) is Nothing {
            Seq::empty()
        } else {
            seq![Message::Input(event_action(event))]
        },
        None => Seq::empty(),
    }
}

/// All that happened since: input first, then what was made anew, files that changed, what was
/// fetched, and last that time passed.
pub open spec fn happened(
    event: Option<Event>,
    refreshed: Option<RefreshOutcome>,
    changed: Option<Vec<String>>,
    fetched: Option<FetchResult>,
) -> Seq<Message> {
    input_messages(event) + (match refreshed {
        Some(outcome) => seq![Message::RefreshCompleted(Box::new(outcome))],
        None => Seq::empty(),
    }) + (match changed {
        Some(files) => if files@.len() > 0 {
            seq![Message::FileChanged(files)]
        } else {
            Seq::empty()
        },
        None => Seq::empty(),
    }) + (match fetched {
        Some(result) => seq![Message::FetchCompleted(result)],
        None => Seq::empty(),
    }) + seq![Message::Tick]
}

/// All that happened since.
pub fn collect_messages(
    event: Option<Event>,
    refreshed: Option<RefreshOutcome>,
    changed: Option<Vec<String>>,
    fetched: Option<FetchResult>,
) -> (r: Vec<Message>)
    ensures
        r@ == happened(event, refreshed, changed, fetched),
{
    let mut out: Vec<Message> = Vec::new();
    if let Some(event) = event {
        let action = handle_event(event);
        let idle = match action {
            AppAction::Nothing => true,
            _ => false,
        };
        if !idle {
            out.push(Message::Input(action));
        }
    }
    assert(out@ =~= input_messages(event));
    if let Some(outcome) = refreshed {
        out.push(Message::RefreshCompleted(Box::new(outcome)));
    }
    if let Some(files) = changed {
        if files.len() > 0 {
            out.push(Message::FileChanged(files));
        }
    }
    if let Some(result) = fetched {
        out.push(Message::FetchCompleted(result));
    }
    out.push(Message::Tick);
    assert(out@ =~= happened(event, refreshed, changed, fetched));
    out
}

/// What to do about something that happened, besides changing the state.
#[derive(Debug)]
pub enum Dispatch {
    /// Leave the loop.
    Stop(LoopAction),
    /// Go on, start what is to be made anew or fetched, and draw where something changed, now or
    /// before.
    GoOn { refresh: RefreshTrigger, fetch: bool, redraw: bool },
}

/// What to do about something that happened.
pub fn dispatch(result: UpdateResult, redraw_before: bool) -> (r: Dispatch)
    ensures
        r == (if result.loop_action is Continue {
            Dispatch::GoOn {
                refresh: result.refresh,
                fetch: result.trigger_fetch,
                redraw: redraw_before || result.needs_redraw,
            }
        } else {
            Dispatch::Stop(result.loop_action)
        }),
{
    match result.loop_action {
        LoopAction::Continue => Dispatch::GoOn {
            refresh: result.refresh,
            fetch: result.trigger_fetch,
            redraw: redraw_before || result.needs_redraw,
        },
        LoopAction::Quit => Dispatch::Stop(LoopAction::Quit),
        LoopAction::RestartVcs => Dispatch::Stop(LoopAction::RestartVcs),
    }
}

/// What came of making the diff anew. What fails after it was called off was called off.
pub fn refresh_outcome(
    result: Result<RefreshResult, String>,
    revision_id: Option<String>,
    cancelled: bool,
) -> (r: RefreshOutcome)
    ensures
        r == (match result {
            Ok(made) => RefreshOutcome::Success(
                RefreshResult {
                    files: made.files,
                    base_identifier: made.base_identifier,
                    revision_id,
                },
            ),
            Err(message) => if cancelled {
                RefreshOutcome::Cancelled
            } else {
                RefreshOutcome::Error(message)
            },
        }),
{
    match result {
        Ok(made) => RefreshOutcome::Success(
            RefreshResult {
                files: made.files,
                base_identifier: made.base_identifier,
                revision_id,
            },
        ),
        Err(message) => if cancelled {
            RefreshOutcome::Cancelled
        } else {
            RefreshOutcome::Error(message)
        },
    }
}

/// What to tell of a fetch: nothing where it failed. Where conflicts could not be looked for, there
/// are none.
pub fn fetch_outcome(
    fetched: bool,
    has_conflicts: Option<bool>,
    new_merge_base: Option<String>,
) -> (r: Option<FetchResult>)
    ensures
        r == (if fetched {
            Some(
                FetchResult {
                    has_conflicts: has_conflicts == Some(true),
                    new_merge_base,
                },
            )
        } else {
            None
        }),
{
    if fetched {
        let has_conflicts = match has_conflicts {
            Some(found) => found,
            None => false,
        };
        Some(FetchResult { has_conflicts, new_merge_base })
    } else {
        None
    }
}

/// Time passes in every round, and after all else that happened in it.
pub proof fn law_every_round_ends_in_a_tick(
    event: Option<Event>,
    refreshed: Option<RefreshOutcome>,
    changed: Option<Vec<String>>,
    fetched: Option<FetchResult>,
)
    ensures
        ({
            let messages = happened(event, refreshed, changed, fetched);
            &&& messages.len() > 0
            &&& messages.last() is Tick
            &&& forall|i: int| 0 <= i < messages.len() - 1 ==> !(#[trigger] messages[i] is Tick)
        }),
{
}

/// The keys that end the wait for a repository are those that quit, or that copy or quit, once there
/// is one.
pub proof fn law_waiting_ends_like_running(code: KeyCode, modifiers: KeyModifiers)
    ensures
        ends_waiting(code, modifiers) <==> key_action(code, modifiers) is Quit || key_action(
            code,
            modifiers,
        ) is CopyOrQuit,
{
}

/// Nothing that happened is lost: each thing is told once, in this order: input that does something,
/// the diff that was made anew, files that changed, what was fetched.
pub proof fn law_nothing_that_happened_is_lost(
    event: Option<Event>,
    refreshed: Option<RefreshOutcome>,
    changed: Option<Vec<String>>,
    fetched: Option<FetchResult>,
)
    ensures
        ({
            let messages = happened(event, refreshed, changed, fetched);
            let input = if event matches Some(event) && !(event_action(event) is Nothing) {
                1int
            } else {
                0
            };
            let made = if refreshed is Some {
                1int
            } else {
                0
            };
            let files = if changed matches Some(files) && files@.len() > 0 {
                1int
            } else {
                0
            };
            let fetch = if fetched is Some {
                1int
            } else {
                0
            };
            &&& messages.len() == input + made + files + fetch + 1
            &&& input == 1 ==> messages[0] == Message::Input(event_action(event->0))
            &&& made == 1 ==> messages[input] == Message::RefreshCompleted(Box::new(refreshed->0))
            &&& files == 1 ==> messages[input + made] == Message::FileChanged(changed->0)
            &&& fetch == 1 ==> messages[input + made + files] == Message::FetchCompleted(
                fetched->0,
            )
        }),
{
}

/// What is done while drawing is measured repeats every twenty frames, and uses every way to move
/// through the diff.
pub proof fn law_measured_actions_repeat(frame: nat)
    ensures
        measured_action(frame + 20) == measured_action(frame),
        frame % 20 < 5 ==> measured_action(frame) == AppAction::ScrollDown(3) && measured_action(
            frame + 5,
        ) == AppAction::ScrollUp(2),
        frame % 20 == 10 ==> measured_action(frame) is NextFile && measured_action(frame + 1)
            is PrevFile && measured_action(frame + 2) is CycleViewMode && measured_action(frame + 3)
            is GoToBottom && measured_action(frame + 4) is GoToTop && measured_action(frame + 5)
            is PageDown && measured_action(frame + 6) is PageUp,
        frame % 20 >= 17 ==> measured_action(frame) == AppAction::ScrollDown(1),
{
}

} // verus!
