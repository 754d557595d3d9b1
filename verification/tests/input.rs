//! What keys and the mouse do.
use branchdiff::input::handle_event;
use branchdiff::input::AppAction;
use branchdiff::input::Event;
use branchdiff::input::KeyCode;
use branchdiff::input::KeyModifiers;
use branchdiff::input::MouseButton;
use branchdiff::input::MouseEventKind;

fn key_event(code: KeyCode, modifiers: KeyModifiers) -> Event {
    Event::Key { code, modifiers }
}

fn mouse_event(kind: MouseEventKind) -> Event {
    Event::Mouse { kind, column: 0, row: 0 }
}

#[test]
fn test_focus_gained_forces_a_repaint() {
    assert_eq!(handle_event(Event::FocusGained), AppAction::ForceRepaint);
}

#[test]
fn test_focus_lost_is_a_no_op() {
    assert_eq!(handle_event(Event::FocusLost), AppAction::Nothing);
}

#[test]
fn test_resize_forces_a_repaint() {
    assert_eq!(handle_event(Event::Resize(80, 24)), AppAction::ForceRepaint);
}

#[test]
fn test_ctrl_l_forces_a_repaint() {
    assert_eq!(
        handle_event(key_event(KeyCode::Char('l'), KeyModifiers::control())),
        AppAction::ForceRepaint
    );
}

#[test]
fn test_plain_l_is_not_a_repaint() {
    assert_ne!(
        handle_event(key_event(KeyCode::Char('l'), KeyModifiers::none())),
        AppAction::ForceRepaint
    );
}

#[test]
fn test_quit_with_q() {
    let event = key_event(KeyCode::Char('q'), KeyModifiers::none());
    assert_eq!(handle_event(event), AppAction::Quit);
}

#[test]
fn test_quit_with_escape() {
    let event = key_event(KeyCode::Esc, KeyModifiers::none());
    assert_eq!(handle_event(event), AppAction::Quit);
}

#[test]
fn test_copy_or_quit_with_ctrl_c() {
    let event = key_event(KeyCode::Char('c'), KeyModifiers::control());
    assert_eq!(handle_event(event), AppAction::CopyOrQuit);
}

#[test]
fn test_scroll_up_with_arrow() {
    let event = key_event(KeyCode::Up, KeyModifiers::none());
    assert_eq!(handle_event(event), AppAction::ScrollUp(1));
}

#[test]
fn test_scroll_down_with_arrow() {
    let event = key_event(KeyCode::Down, KeyModifiers::none());
    assert_eq!(handle_event(event), AppAction::ScrollDown(1));
}

#[test]
fn test_open_editor_with_e() {
    let event = key_event(KeyCode::Char('e'), KeyModifiers::none());
    assert_eq!(handle_event(event), AppAction::OpenEditor);
}

#[test]
fn test_open_repo_with_shift_e() {
    // Both reported forms of a capital E (some terminals omit the modifier).
    let shifted = key_event(KeyCode::Char('E'), KeyModifiers::shift());
    assert_eq!(handle_event(shifted), AppAction::OpenRepo);
    let bare = key_event(KeyCode::Char('E'), KeyModifiers::none());
    assert_eq!(handle_event(bare), AppAction::OpenRepo);
}

#[test]
fn test_next_file_with_j() {
    let event = key_event(KeyCode::Char('j'), KeyModifiers::none());
    assert_eq!(handle_event(event), AppAction::NextFile);
}

#[test]
fn test_prev_file_with_k() {
    let event = key_event(KeyCode::Char('k'), KeyModifiers::none());
    assert_eq!(handle_event(event), AppAction::PrevFile);
}

#[test]
fn test_page_up() {
    let event = key_event(KeyCode::PageUp, KeyModifiers::none());
    assert_eq!(handle_event(event), AppAction::PageUp);
}

#[test]
fn test_page_up_with_ctrl_u() {
    let event = key_event(KeyCode::Char('u'), KeyModifiers::control());
    assert_eq!(handle_event(event), AppAction::PageUp);
}

#[test]
fn test_page_down() {
    let event = key_event(KeyCode::PageDown, KeyModifiers::none());
    assert_eq!(handle_event(event), AppAction::PageDown);
}

#[test]
fn test_page_down_with_ctrl_d() {
    let event = key_event(KeyCode::Char('d'), KeyModifiers::control());
    assert_eq!(handle_event(event), AppAction::PageDown);
}

#[test]
fn test_go_to_top_with_g() {
    let event = key_event(KeyCode::Char('g'), KeyModifiers::none());
    assert_eq!(handle_event(event), AppAction::GoToTop);
}

#[test]
fn test_go_to_bottom_with_shift_g() {
    let event = key_event(KeyCode::Char('G'), KeyModifiers::shift());
    assert_eq!(handle_event(event), AppAction::GoToBottom);
}

#[test]
fn test_go_to_top_with_home() {
    let event = key_event(KeyCode::Home, KeyModifiers::none());
    assert_eq!(handle_event(event), AppAction::GoToTop);
}

#[test]
fn test_go_to_bottom_with_end() {
    let event = key_event(KeyCode::End, KeyModifiers::none());
    assert_eq!(handle_event(event), AppAction::GoToBottom);
}

#[test]
fn test_toggle_all_reviewed_with_shift_r() {
    let event = key_event(KeyCode::Char('R'), KeyModifiers::shift());
    assert_eq!(handle_event(event), AppAction::ToggleAllReviewed);
}

#[test]
fn test_toggle_reviewed_with_r() {
    let event = key_event(KeyCode::Char('r'), KeyModifiers::none());
    assert_eq!(handle_event(event), AppAction::ToggleReviewed);
}

#[test]
fn test_help_with_question_mark() {
    let event = key_event(KeyCode::Char('?'), KeyModifiers::none());
    assert_eq!(handle_event(event), AppAction::ToggleHelp);
}

#[test]
fn test_mouse_scroll_up() {
    let event = mouse_event(MouseEventKind::ScrollUp);
    assert_eq!(handle_event(event), AppAction::ScrollUp(3));
}

#[test]
fn test_mouse_scroll_down() {
    let event = mouse_event(MouseEventKind::ScrollDown);
    assert_eq!(handle_event(event), AppAction::ScrollDown(3));
}

#[test]
fn test_mouse_left_click_starts_selection() {
    let event = mouse_event(MouseEventKind::Down(MouseButton::Left));
    assert_eq!(handle_event(event), AppAction::StartSelection(0, 0));
}

#[test]
fn test_mouse_right_click_is_none() {
    let event = mouse_event(MouseEventKind::Down(MouseButton::Right));
    assert_eq!(handle_event(event), AppAction::Nothing);
}

#[test]
fn test_mouse_drag_updates_selection() {
    let event = Event::Mouse {
        kind: MouseEventKind::Drag(MouseButton::Left),
        column: 10,
        row: 5,
    };
    assert_eq!(handle_event(event), AppAction::UpdateSelection(10, 5));
}

#[test]
fn test_mouse_release_ends_selection() {
    let event = mouse_event(MouseEventKind::Up(MouseButton::Left));
    assert_eq!(handle_event(event), AppAction::EndSelection);
}

#[test]
fn test_y_is_unbound() {
    let event = key_event(KeyCode::Char('y'), KeyModifiers::none());
    assert_eq!(handle_event(event), AppAction::Nothing);
}

#[test]
fn test_cycle_view_mode_with_c() {
    let event = key_event(KeyCode::Char('c'), KeyModifiers::none());
    assert_eq!(handle_event(event), AppAction::CycleViewMode);
}

#[test]
fn test_toggle_diff_base_with_m() {
    let event = key_event(KeyCode::Char('m'), KeyModifiers::none());
    assert_eq!(handle_event(event), AppAction::ToggleDiffBase);
}

#[test]
fn run_recovery_bound_to_plain_u() {
    // Plain 'u' invokes the recovery offered in the error banner. The
    // handler is a no-op when nothing is pending, so this remains safe
    // for users who don't have a banner showing.
    let event = key_event(KeyCode::Char('u'), KeyModifiers::none());
    assert_eq!(handle_event(event), AppAction::RunRecovery);
}

#[test]
fn ctrl_u_is_still_page_up_after_recovery_binding() {
    // Regression guard: adding plain 'u' for recovery must not steal the
    // existing Ctrl+u shortcut.
    let event = key_event(KeyCode::Char('u'), KeyModifiers::control());
    assert_eq!(handle_event(event), AppAction::PageUp);
}

#[test]
fn test_copy_path_with_p() {
    let event = key_event(KeyCode::Char('p'), KeyModifiers::none());
    assert_eq!(handle_event(event), AppAction::CopyPath);
}

#[test]
fn test_copy_diff_with_shift_y() {
    let event = key_event(KeyCode::Char('Y'), KeyModifiers::shift());
    assert_eq!(handle_event(event), AppAction::CopyDiff);
}

#[test]
fn test_copy_patch_with_shift_d() {
    let event = key_event(KeyCode::Char('D'), KeyModifiers::shift());
    assert_eq!(handle_event(event), AppAction::CopyPatch);
}

#[test]
fn test_search_with_slash() {
    let event = key_event(KeyCode::Char('/'), KeyModifiers::none());
    assert_eq!(handle_event(event), AppAction::OpenSearch);
}

#[test]
fn test_search_with_ctrl_f() {
    let event = key_event(KeyCode::Char('f'), KeyModifiers::control());
    assert_eq!(handle_event(event), AppAction::OpenSearch);
}

#[test]
fn test_unknown_key_is_none() {
    let event = key_event(KeyCode::Char('x'), KeyModifiers::none());
    assert_eq!(handle_event(event), AppAction::Nothing);
}
