//! The windows over the diff: the help, banners and notices.
use branchdiff::app::VcsBackend;
use branchdiff::style::Color;
use branchdiff::style::Line;
use branchdiff::style::Rect;
use branchdiff::ui::modals;
use branchdiff::ui::modals::draw_error;
use branchdiff::ui::modals::draw_no_changes;
use branchdiff::ui::modals::help::build_color_labels;
use branchdiff::ui::modals::help::color_labels;
use branchdiff::ui::modals::help::draw_help_modal;
use branchdiff::ui::modals::help::draw_short_help;
use branchdiff::ui::modals::help::modal_area;
use branchdiff::ui::modals::warning::draw_warning_banner;
use branchdiff::ui::modals::warning::draw_warning_banner_with_hint;
use branchdiff::update::RecoveryHint;

fn rect(x: u16, y: u16, width: u16, height: u16) -> Rect {
    Rect { x, y, width, height }
}

fn text_of(line: &Line) -> String {
    line.spans.iter().map(|s| s.content.as_str()).collect()
}

#[test]
fn test_warning_message_format() {
    let message = "Merge conflicts detected";
    let formatted = text_of(&draw_warning_banner(message));
    assert_eq!(formatted, " ⚠ Merge conflicts detected ");
}

#[test]
fn banner_with_hint_shows_key_and_command() {
    let hint = RecoveryHint::jj_update_stale();
    let text = text_of(&draw_warning_banner_with_hint("The working copy is stale", Some(&hint)));
    assert!(text.contains("The working copy is stale"), "got: {text:?}");
    assert!(text.contains("press 'u'"), "got: {text:?}");
    assert!(text.contains("jj workspace update-stale"), "got: {text:?}");
}

#[test]
fn banner_without_hint_omits_action_text() {
    let text = text_of(&draw_warning_banner_with_hint("Merge conflicts", None));
    assert!(text.contains("Merge conflicts"), "got: {text:?}");
    assert!(!text.contains("press"), "should have no hint, got: {text:?}");
}

#[test]
fn test_help_fits_its_window() {
    for backend in [VcsBackend::Git, VcsBackend::Jj] {
        let help = draw_help_modal(rect(0, 0, 120, 60), backend);
        assert_eq!(help.area, rect(33, 3, 54, 53));
        assert_eq!(help.lines.len(), 43);
    }
    let short = draw_short_help(rect(0, 0, 100, 40), "Toggle context-only view");
    assert_eq!(short.area, rect(25, 9, 50, 22));
    assert_eq!(short.lines.len(), 19);
    assert_eq!(text_of(&short.lines[15]), "    c           Toggle context-only view");
    let cycling = modals::draw_help_modal(rect(0, 0, 100, 40));
    assert_eq!(cycling.area, short.area);
    assert_eq!(text_of(&cycling.lines[15]), "    c           Cycle view mode");
    assert_eq!(text_of(&cycling.lines[18]), text_of(&short.lines[18]));
}

#[test]
fn test_help_names_the_sources() {
    let git = draw_help_modal(rect(0, 0, 120, 60), VcsBackend::Git);
    let jj = draw_help_modal(rect(0, 0, 120, 60), VcsBackend::Jj);
    assert!(git.lines.iter().any(|line| text_of(line).contains("Added (staged)")));
    assert!(jj.lines.iter().any(|line| text_of(line).contains("Added (current commit)")));
}

#[test]
fn test_notices() {
    let area = rect(1, 2, 30, 5);
    let error = draw_error("no repository", area);
    assert_eq!((error.area, error.border), (area, Color::Red));
    assert_eq!(error.text, "no repository");
    let none = draw_no_changes("main", area);
    assert_eq!(none.text, "No changes compared to main");
    assert_eq!(none.border, Color::DarkGray);
}

#[test]
fn test_help_modal_dimensions() {
    let modal_width = 54u16;
    let modal_height = 51u16;
    assert!(modal_width > 0);
    assert!(modal_height > 0);
    let modal = modal_area(rect(0, 0, 120, 60), modal_width, modal_height);
    assert_eq!((modal.width, modal.height), (modal_width, modal_height));
}

#[test]
fn test_help_modal_centering_large_area() {
    let area = rect(0, 0, 120, 60);
    let modal_width = 54u16;
    let modal_height = 51u16;

    let modal = modal_area(area, modal_width, modal_height);

    assert_eq!(modal.x, 33);
    assert_eq!(modal.y, 4);
}

#[test]
fn test_help_modal_centering_small_area() {
    let area = rect(0, 0, 40, 20);
    let modal_width = 54u16;
    let modal_height = 51u16;

    let modal = modal_area(area, modal_width, modal_height);

    assert_eq!(modal.x, 0);
    assert_eq!(modal.y, 0);
}

#[test]
fn test_help_modal_clamps_to_area() {
    let area = rect(0, 0, 30, 15);
    let modal_width = 54u16;
    let modal_height = 51u16;

    let modal = modal_area(area, modal_width, modal_height);

    assert_eq!(modal.width, 30);
    assert_eq!(modal.height, 15);
}

#[test]
fn test_help_labels_git_mode() {
    let labels = build_color_labels(VcsBackend::Git);
    assert_eq!(labels[0], "Added (committed)");
    assert_eq!(labels[1], "Added (staged)");
    assert_eq!(labels[2], "Added (unstaged)");
    assert_eq!(labels[3], "Deleted (committed)");
    assert_eq!(labels[4], "Deleted (staged)");
    assert_eq!(labels[5], "Deleted (unstaged)");
}

#[test]
fn test_help_labels_jj_mode() {
    let labels = build_color_labels(VcsBackend::Jj);
    assert_eq!(labels[0], "Added (earlier commits)");
    assert_eq!(labels[1], "Added (current commit)");
    assert_eq!(labels[2], "Added (later commits)");
    assert_eq!(labels[3], "Deleted (earlier commits)");
    assert_eq!(labels[4], "Deleted (current commit)");
    assert_eq!(labels[5], "Deleted (later commits)");
}

#[test]
fn test_help_symbols_git_mode() {
    let labels = color_labels(VcsBackend::Git);
    assert_eq!(labels.committed_sym, "C");
    assert_eq!(labels.staged_sym, "S");
    assert_eq!(labels.del_committed_sym, "C");
    assert_eq!(labels.del_staged_sym, "S");
}

#[test]
fn test_help_symbols_jj_mode() {
    let labels = color_labels(VcsBackend::Jj);
    assert_eq!(labels.committed_sym, " ");
    assert_eq!(labels.staged_sym, "@");
    assert_eq!(labels.del_committed_sym, " ");
    assert_eq!(labels.del_staged_sym, "@");
}
