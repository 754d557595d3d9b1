//! What is written out of a diff.
use branchdiff::app::App;
use branchdiff::app::ComparisonContext;
use branchdiff::app::VcsBackend;
use branchdiff::app::ViewMode;
use branchdiff::app::ViewState;
use branchdiff::diff::DiffLine;
use branchdiff::diff::FileDiff;
use branchdiff::diff::LineSource;
use branchdiff::image_diff::ImageCache;
use branchdiff::output::apply_view_mode;
use branchdiff::output::context_visibility;
use branchdiff::output::filter_with_elided;
use branchdiff::output::prepare;

#[test]
fn test_context_view_counts_all_lines() {
    let mut lines = vec![DiffLine::file_header("test.rs")];
    for i in 0..30 {
        lines.push(DiffLine::new(LineSource::Base, format!("line {i}"), ' ', Some(i + 1)));
    }
    lines.push(DiffLine::new(LineSource::Committed, "added".into(), '+', Some(31)));
    let result = apply_view_mode(&lines, ViewMode::Context);
    // The heading and the lines behind it, a mark, the lines before the change, the change.
    assert_eq!(result.len(), 1 + 5 + 1 + 5 + 1);
    assert_eq!(result[6].source, LineSource::Elided);
    assert_eq!(result[6].content, "20 lines");
    assert_eq!(result[12].content, "added");
    let commit = apply_view_mode(&lines, ViewMode::CommitOnly);
    assert_eq!(commit.len(), result.len());
}

#[test]
fn test_nothing_shown_has_no_marks() {
    let lines = vec![DiffLine::new(LineSource::Base, "a".into(), ' ', Some(1))];
    assert_eq!(filter_with_elided(&lines, &[false]).len(), 0);
    assert_eq!(apply_view_mode(&lines, ViewMode::Context).len(), 0);
}

#[test]
fn test_context_visibility_shows_changes_and_context() {
    // No header — pure content lines to test context window in isolation
    let mut lines = Vec::new();
    // 10 base lines (indices 0-9), then a change (index 10), then 10 base lines (11-20)
    for i in 0..10 {
        lines.push(DiffLine::new(LineSource::Base, format!("line {i}"), ' ', Some(i + 1)));
    }
    lines.push(DiffLine::new(LineSource::Committed, "added".into(), '+', Some(11)));
    for i in 11..21 {
        lines.push(DiffLine::new(LineSource::Base, format!("line {i}"), ' ', Some(i + 1)));
    }

    let show = context_visibility(&lines);

    // Lines 0-4 should be hidden (indices 0-4, more than 5 away from change at 10)
    assert!(!show[0], "line 0 should be hidden");
    assert!(!show[4], "line 4 should be hidden");
    // Lines 5-9 should be visible (within 5 of change at index 10)
    assert!(show[5], "line 5 should be visible (5 before change)");
    assert!(show[9], "line 9 should be visible (1 before change)");
    // The change itself
    assert!(show[10], "change should be visible");
    // Lines 11-15 should be visible (within 5 after change)
    assert!(show[11], "line 11 should be visible");
    assert!(show[15], "line 15 should be visible (5 after change)");
    // Lines 16+ should be hidden
    assert!(!show[16], "line 16 should be hidden");
}

#[test]
fn test_filter_with_elided_inserts_markers() {
    let lines = vec![
        DiffLine::new(LineSource::Base, "a".into(), ' ', Some(1)),
        DiffLine::new(LineSource::Base, "b".into(), ' ', Some(2)),
        DiffLine::new(LineSource::Base, "c".into(), ' ', Some(3)),
        DiffLine::new(LineSource::Committed, "d".into(), '+', Some(4)),
        DiffLine::new(LineSource::Base, "e".into(), ' ', Some(5)),
        DiffLine::new(LineSource::Base, "f".into(), ' ', Some(6)),
    ];
    let show = vec![false, false, false, true, false, false];

    let filtered = filter_with_elided(&lines, &show);

    assert_eq!(filtered.len(), 3); // elided + change + elided
    assert_eq!(filtered[0].source, LineSource::Elided);
    assert_eq!(filtered[0].content, "3 lines"); // 3 hidden lines before
    assert_eq!(filtered[1].content, "d");
    assert_eq!(filtered[2].source, LineSource::Elided);
    assert_eq!(filtered[2].content, "2 lines"); // 2 hidden lines after
}

#[test]
fn test_apply_view_mode_full_returns_all() {
    let lines = vec![
        DiffLine::file_header("test.rs"),
        DiffLine::new(LineSource::Base, "a".into(), ' ', Some(1)),
        DiffLine::new(LineSource::Committed, "b".into(), '+', Some(2)),
    ];
    let result = apply_view_mode(&lines, ViewMode::Full);
    assert_eq!(result.len(), 3);
}

#[test]
fn test_apply_view_mode_changes_only() {
    let lines = vec![
        DiffLine::file_header("test.rs"),
        DiffLine::new(LineSource::Base, "a".into(), ' ', Some(1)),
        DiffLine::new(LineSource::Committed, "b".into(), '+', Some(2)),
        DiffLine::new(LineSource::DeletedBase, "c".into(), '-', Some(3)),
    ];
    let result = apply_view_mode(&lines, ViewMode::ChangesOnly);
    assert_eq!(result.len(), 3); // header + 2 changes, no base
    assert_eq!(result[0].source, LineSource::FileHeader);
    assert_eq!(result[1].source, LineSource::Committed);
    assert_eq!(result[2].source, LineSource::DeletedBase);
}

fn app_with(files: Vec<FileDiff>, view_mode: ViewMode, collapsed: &str) -> App {
    App {
        repo_path: "/tmp/test".to_string(),
        comparison: ComparisonContext {
            from_label: "main".to_string(),
            to_label: "feature".to_string(),
            bookmark_name: None,
            stack_position: None,
            vcs_backend: VcsBackend::Git,
            upstream_files: None,
        },
        files,
        lines: Vec::new(),
        additions: 0,
        deletions: 0,
        scroll_percentage: 0,
        error: None,
        conflict_warning: None,
        performance_warning: None,
        search: None,
        image_cache: ImageCache::new(),
        font_size: (8, 16),
        show_copied_flash: false,
        view: ViewState {
            view_mode,
            show_help: false,
            selection: None,
            row_map: Vec::new(),
            collapsed_files: vec![collapsed.to_string()],
            reviewed_files: Vec::new(),
            sub_row: 0,
        },
    }
}

#[test]
fn test_prepare_groups_and_counts() {
    let file = |path: &str| FileDiff {
        lines: vec![
            DiffLine::file_header(path),
            DiffLine::new(LineSource::Base, "same".into(), ' ', Some(1)),
            DiffLine::new(LineSource::Staged, "new".into(), '+', Some(2)),
            DiffLine::new(LineSource::Unstaged, "newer".into(), '+', Some(3)),
            DiffLine::new(LineSource::DeletedBase, "gone".into(), '-', None),
        ],
    };
    let empty = FileDiff { lines: vec![DiffLine::file_header("empty.rs")] };
    let app = app_with(vec![file("a.rs"), empty, file("b.rs")], ViewMode::ChangesOnly, "b.rs");
    let data = prepare(&app);
    assert_eq!(data.repo_name, "test");
    assert_eq!((data.to_label.as_str(), data.from_label.as_str()), ("feature", "main"));
    assert_eq!(data.files.len(), 2, "a file with nothing but its heading is left out");
    assert_eq!(data.files[0].path, "a.rs");
    assert!(!data.files[0].collapsed);
    assert!(data.files[1].collapsed);
    assert_eq!((data.files[0].additions, data.files[0].deletions), (2, 1));
    assert_eq!((data.total_additions, data.total_deletions), (4, 2));
    assert_eq!(data.files[0].lines.len(), 4, "the unchanged line is not shown");
}

#[test]
fn test_prepare_without_a_heading_has_no_path() {
    let lines = vec![DiffLine::new(LineSource::Base, "same".into(), ' ', Some(1))];
    let mut app = app_with(vec![FileDiff { lines }], ViewMode::Full, "");
    app.repo_path = "/".to_string();
    let data = prepare(&app);
    assert_eq!(data.repo_name, "repo");
    assert_eq!(data.files[0].path, "");
    assert!(data.files[0].collapsed, "the empty path is among those that are collapsed");
}
