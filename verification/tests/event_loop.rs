//! How the program runs.
use branchdiff::app::VcsBackend;
use branchdiff::event_loop::benchmark_action;
use branchdiff::event_loop::collect_messages;
use branchdiff::event_loop::dispatch;
use branchdiff::event_loop::fallback_comparison;
use branchdiff::event_loop::fetch_outcome;
use branchdiff::event_loop::first_viewport_height;
use branchdiff::event_loop::output_mode;
use branchdiff::event_loop::refresh_outcome;
use branchdiff::event_loop::runs_again;
use branchdiff::event_loop::scrolled;
use branchdiff::event_loop::start;
use branchdiff::event_loop::wait_for_vcs;
use branchdiff::event_loop::waiting_area;
use branchdiff::event_loop::Dispatch;
use branchdiff::event_loop::OutputMode;
use branchdiff::event_loop::Start;
use branchdiff::event_loop::WaitEvent;
use branchdiff::event_loop::WaitStep;
use branchdiff::input::AppAction;
use branchdiff::input::Event;
use branchdiff::input::KeyCode;
use branchdiff::input::KeyModifiers;
use branchdiff::message::FetchResult;
use branchdiff::message::LoopAction;
use branchdiff::message::Message;
use branchdiff::message::RefreshOutcome;
use branchdiff::message::RefreshResult;
use branchdiff::message::RefreshTrigger;
use branchdiff::message::UpdateResult;
use branchdiff::style::Rect;

#[test]
fn test_start_by_mode() {
    assert_eq!(output_mode(true, false), OutputMode::Print);
    assert_eq!(output_mode(false, true), OutputMode::Diff);
    assert_eq!(output_mode(false, false), OutputMode::default());
    assert_eq!(start(false, OutputMode::Print, None), Start::NotARepository);
    assert_eq!(start(false, OutputMode::Diff, None), Start::NotARepository);
    assert_eq!(start(false, OutputMode::Tui, Some(9)), Start::Wait);
    assert_eq!(start(true, OutputMode::Print, Some(9)), Start::Print);
    assert_eq!(start(true, OutputMode::Diff, None), Start::Diff);
    assert_eq!(start(true, OutputMode::Tui, Some(9)), Start::Benchmark(9));
    assert_eq!(start(true, OutputMode::Tui, None), Start::Run);
}

#[test]
fn test_waiting_ends_or_goes_on() {
    let key = |code, modifiers| WaitEvent::Input(Event::Key { code, modifiers });
    assert_eq!(wait_for_vcs(key(KeyCode::Char('q'), KeyModifiers::shift())), WaitStep::Quit);
    assert_eq!(wait_for_vcs(key(KeyCode::Esc, KeyModifiers::none())), WaitStep::Quit);
    assert_eq!(wait_for_vcs(key(KeyCode::Char('c'), KeyModifiers::control())), WaitStep::Quit);
    assert_eq!(wait_for_vcs(key(KeyCode::Char('c'), KeyModifiers::none())), WaitStep::GoOn);
    assert_eq!(wait_for_vcs(WaitEvent::Input(Event::FocusGained)), WaitStep::GoOn);
    assert_eq!(wait_for_vcs(WaitEvent::Elapsed(999_999_999)), WaitStep::GoOn);
    assert_eq!(wait_for_vcs(WaitEvent::Elapsed(1_000_000_000)), WaitStep::Look);
    assert_eq!(wait_for_vcs(WaitEvent::Looked { found: true }), WaitStep::Run);
    assert_eq!(wait_for_vcs(WaitEvent::Looked { found: false }), WaitStep::GoOn);
    let area = waiting_area(Rect { x: 3, y: 5, width: 80, height: 24 });
    assert_eq!(area, Rect { x: 0, y: 10, width: 80, height: 4 });
}

#[test]
fn test_running_again() {
    assert!(runs_again(LoopAction::RestartVcs, true));
    assert!(!runs_again(LoopAction::RestartVcs, false));
    assert!(!runs_again(LoopAction::Quit, true));
    assert_eq!(first_viewport_height(24, 1), 21);
    assert_eq!(first_viewport_height(2, 1), 0);
    let comparison = fallback_comparison(VcsBackend::Jj);
    assert_eq!(comparison.from_label, "base");
    assert_eq!(comparison.to_label, "working copy");
}

#[test]
fn test_benchmark_actions_repeat() {
    assert_eq!(benchmark_action(0), AppAction::ScrollDown(3));
    assert_eq!(benchmark_action(27), AppAction::ScrollUp(2));
    assert_eq!(benchmark_action(50), AppAction::NextFile);
    assert_eq!(benchmark_action(19), AppAction::ScrollDown(1));
    assert_eq!(scrolled(5, AppAction::ScrollDown(3), 7), 7);
    assert_eq!(scrolled(5, AppAction::ScrollDown(1), 7), 6);
    assert_eq!(scrolled(1, AppAction::ScrollUp(2), 7), 0);
    assert_eq!(scrolled(4, AppAction::PageUp, 7), 4);
}

#[test]
fn test_messages_come_in_order() {
    let quit = Event::Key { code: KeyCode::Esc, modifiers: KeyModifiers::none() };
    let messages = collect_messages(
        Some(quit),
        Some(RefreshOutcome::Cancelled),
        Some(vec!["a.rs".to_string()]),
        Some(FetchResult { has_conflicts: true, new_merge_base: None }),
    );
    assert_eq!(messages.len(), 5);
    assert!(matches!(messages[0], Message::Input(AppAction::Quit)));
    assert!(matches!(messages[1], Message::RefreshCompleted(_)));
    assert!(matches!(messages[2], Message::FileChanged(_)));
    assert!(matches!(messages[3], Message::FetchCompleted(_)));
    assert!(matches!(messages[4], Message::Tick));
    let idle = collect_messages(Some(Event::FocusLost), None, Some(Vec::new()), None);
    assert_eq!(idle.len(), 1);
    assert!(matches!(idle[0], Message::Tick));
}

#[test]
fn test_dispatch_stops_or_goes_on() {
    let mut result = UpdateResult::default();
    result.refresh = RefreshTrigger::SingleFile("a.rs".to_string());
    result.trigger_fetch = true;
    match dispatch(result, true) {
        Dispatch::GoOn { refresh, fetch, redraw } => {
            assert_eq!(refresh, RefreshTrigger::SingleFile("a.rs".to_string()));
            assert!(fetch && redraw);
        }
        Dispatch::Stop(_) => panic!("should go on"),
    }
    let mut result = UpdateResult::default();
    result.loop_action = LoopAction::RestartVcs;
    assert!(matches!(dispatch(result, false), Dispatch::Stop(LoopAction::RestartVcs)));
}

#[test]
fn test_what_came_of_a_refresh() {
    let made = RefreshResult {
        files: Vec::new(),
        base_identifier: "abc".to_string(),
        revision_id: None,
    };
    match refresh_outcome(Ok(made), Some("rev".to_string()), true) {
        RefreshOutcome::Success(result) => {
            assert_eq!(result.base_identifier, "abc");
            assert_eq!(result.revision_id.as_deref(), Some("rev"));
        }
        other => panic!("{other:?}"),
    }
    let failed = || Err("no such ref".to_string());
    assert!(matches!(refresh_outcome(failed(), None, true), RefreshOutcome::Cancelled));
    match refresh_outcome(failed(), None, false) {
        RefreshOutcome::Error(message) => assert_eq!(message, "no such ref"),
        other => panic!("{other:?}"),
    }
}

#[test]
fn test_what_came_of_a_fetch() {
    assert!(fetch_outcome(false, Some(true), None).is_none());
    let told = fetch_outcome(true, None, Some("def".to_string())).unwrap();
    assert!(!told.has_conflicts);
    assert_eq!(told.new_merge_base.as_deref(), Some("def"));
    assert!(fetch_outcome(true, Some(true), None).unwrap().has_conflicts);
}
