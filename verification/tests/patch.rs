//! The diff as a patch.
use branchdiff::diff::DiffLine;
use branchdiff::diff::LineSource;
use branchdiff::patch::build_hunks;
use branchdiff::patch::diff_lines_to_patch_lines;
use branchdiff::patch::format_range;
use branchdiff::patch::generate_patch;
use branchdiff::patch::Hunk;
use branchdiff::patch::PatchLine;

fn make_diff_line(source: LineSource, content: &str, file_path: &str) -> DiffLine {
    DiffLine {
        source,
        content: content.to_string(),
        prefix: match source {
            LineSource::Base => ' ',
            LineSource::Committed | LineSource::Staged | LineSource::Unstaged => '+',
            LineSource::DeletedBase
            | LineSource::DeletedCommitted
            | LineSource::DeletedStaged => '-',
            _ => ' ',
        },
        line_number: None,
        file_path: Some(file_path.to_string()),
        inline_spans: Vec::new(),
        old_content: None,
        change_source: None,
        in_current_bookmark: None,
        block_idx: None,
        move_target: None,
    }
}

#[test]
fn test_simple_addition() {
    let lines = vec![
        make_diff_line(LineSource::Base, "line 1", "test.txt"),
        make_diff_line(LineSource::Base, "line 2", "test.txt"),
        make_diff_line(LineSource::Base, "line 3", "test.txt"),
        make_diff_line(LineSource::Committed, "new line", "test.txt"),
        make_diff_line(LineSource::Base, "line 4", "test.txt"),
        make_diff_line(LineSource::Base, "line 5", "test.txt"),
        make_diff_line(LineSource::Base, "line 6", "test.txt"),
    ];

    let patch = generate_patch(&lines);

    assert!(patch.contains("diff --git a/test.txt b/test.txt"));
    assert!(patch.contains("--- a/test.txt"));
    assert!(patch.contains("+++ b/test.txt"));
    assert!(patch.contains("+new line"));
    assert!(patch.contains("@@ -"));
}

#[test]
fn test_simple_deletion() {
    let lines = vec![
        make_diff_line(LineSource::Base, "line 1", "test.txt"),
        make_diff_line(LineSource::Base, "line 2", "test.txt"),
        make_diff_line(LineSource::Base, "line 3", "test.txt"),
        make_diff_line(LineSource::DeletedCommitted, "deleted line", "test.txt"),
        make_diff_line(LineSource::Base, "line 4", "test.txt"),
        make_diff_line(LineSource::Base, "line 5", "test.txt"),
        make_diff_line(LineSource::Base, "line 6", "test.txt"),
    ];

    let patch = generate_patch(&lines);

    assert!(patch.contains("-deleted line"));
}

#[test]
fn test_mixed_changes() {
    let lines = vec![
        make_diff_line(LineSource::Base, "context", "test.txt"),
        make_diff_line(LineSource::DeletedStaged, "old line", "test.txt"),
        make_diff_line(LineSource::Staged, "new line", "test.txt"),
        make_diff_line(LineSource::Base, "more context", "test.txt"),
    ];

    let patch = generate_patch(&lines);

    assert!(patch.contains("-old line"));
    assert!(patch.contains("+new line"));
}

#[test]
fn test_multiple_files() {
    let lines = vec![
        make_diff_line(LineSource::Base, "file1 line", "file1.txt"),
        make_diff_line(LineSource::Committed, "file1 addition", "file1.txt"),
        make_diff_line(LineSource::Base, "file2 line", "file2.txt"),
        make_diff_line(LineSource::Unstaged, "file2 addition", "file2.txt"),
    ];

    let patch = generate_patch(&lines);

    assert!(patch.contains("diff --git a/file1.txt b/file1.txt"));
    assert!(patch.contains("diff --git a/file2.txt b/file2.txt"));
    assert!(patch.contains("+file1 addition"));
    assert!(patch.contains("+file2 addition"));
}

#[test]
fn test_skips_canceled_lines() {
    let lines = vec![
        make_diff_line(LineSource::Base, "context", "test.txt"),
        make_diff_line(LineSource::CanceledCommitted, "canceled", "test.txt"),
        make_diff_line(LineSource::Committed, "actual change", "test.txt"),
    ];

    let patch = generate_patch(&lines);

    assert!(!patch.contains("canceled"));
    assert!(patch.contains("+actual change"));
}

#[test]
fn test_skips_file_header() {
    let lines = vec![
        make_diff_line(LineSource::FileHeader, "src/test.txt", "test.txt"),
        make_diff_line(LineSource::Base, "context", "test.txt"),
        make_diff_line(LineSource::Committed, "change", "test.txt"),
    ];

    let patch = generate_patch(&lines);

    // FileHeader content should not appear as a change line
    let lines: Vec<&str> = patch.lines().collect();
    assert!(!lines.iter().any(|l| *l == "+src/test.txt" || *l == "-src/test.txt"));
}

#[test]
fn test_empty_diff() {
    let lines: Vec<DiffLine> = vec![];
    let patch = generate_patch(&lines);
    assert!(patch.is_empty());
}

#[test]
fn test_no_changes() {
    let lines = vec![
        make_diff_line(LineSource::Base, "line 1", "test.txt"),
        make_diff_line(LineSource::Base, "line 2", "test.txt"),
    ];

    let patch = generate_patch(&lines);

    // No hunks should be generated for files with no changes
    assert!(!patch.contains("@@"));
}

#[test]
fn test_hunk_header_format_with_counts() {
    let hunk = Hunk {
        old_start: 10,
        old_count: 5,
        new_start: 12,
        new_count: 7,
        lines: vec![],
    };

    assert_eq!(hunk.header(), "@@ -10,5 +12,7 @@");
}

#[test]
fn test_hunk_header_omits_count_when_one() {
    // Per git spec, count is omitted when it equals 1
    let hunk = Hunk {
        old_start: 5,
        old_count: 1,
        new_start: 7,
        new_count: 1,
        lines: vec![],
    };

    assert_eq!(hunk.header(), "@@ -5 +7 @@");
}

#[test]
fn test_hunk_header_mixed_counts() {
    let hunk = Hunk {
        old_start: 10,
        old_count: 1,
        new_start: 12,
        new_count: 3,
        lines: vec![],
    };

    assert_eq!(hunk.header(), "@@ -10 +12,3 @@");
}

#[test]
fn test_hunk_header_zero_counts() {
    // Zero counts for new/deleted files
    let hunk = Hunk {
        old_start: 0,
        old_count: 0,
        new_start: 1,
        new_count: 5,
        lines: vec![],
    };

    assert_eq!(hunk.header(), "@@ -0,0 +1,5 @@");
}

#[test]
fn test_context_limiting() {
    // Create a file with many lines and one change in the middle
    let mut lines = Vec::new();
    for i in 1..=20 {
        lines.push(make_diff_line(
            LineSource::Base,
            &format!("line {}", i),
            "test.txt",
        ));
    }
    // Insert a change at position 10
    lines.insert(
        10,
        make_diff_line(LineSource::Committed, "new line", "test.txt"),
    );

    let patch = generate_patch(&lines);

    // Should have context but not all 20+ lines
    let line_count = patch.lines().count();
    // Header (3) + hunk header (1) + 3 context before + 1 change + 3 context after = 11
    assert!(line_count < 15, "Patch should be limited: {}", line_count);
}

#[test]
fn test_all_change_types_combined() {
    let lines = vec![
        make_diff_line(LineSource::Base, "context 1", "test.txt"),
        make_diff_line(LineSource::DeletedBase, "deleted base", "test.txt"),
        make_diff_line(LineSource::Committed, "committed add", "test.txt"),
        make_diff_line(LineSource::Base, "context 2", "test.txt"),
        make_diff_line(LineSource::DeletedCommitted, "deleted committed", "test.txt"),
        make_diff_line(LineSource::Staged, "staged add", "test.txt"),
        make_diff_line(LineSource::Base, "context 3", "test.txt"),
        make_diff_line(LineSource::DeletedStaged, "deleted staged", "test.txt"),
        make_diff_line(LineSource::Unstaged, "unstaged add", "test.txt"),
    ];

    let patch = generate_patch(&lines);

    assert!(patch.contains("-deleted base"));
    assert!(patch.contains("+committed add"));
    assert!(patch.contains("-deleted committed"));
    assert!(patch.contains("+staged add"));
    assert!(patch.contains("-deleted staged"));
    assert!(patch.contains("+unstaged add"));
}

#[test]
fn test_new_file_uses_dev_null() {
    // A new file has only additions (no context, no deletions)
    let lines = vec![
        make_diff_line(LineSource::Committed, "line 1", "new_file.txt"),
        make_diff_line(LineSource::Committed, "line 2", "new_file.txt"),
        make_diff_line(LineSource::Committed, "line 3", "new_file.txt"),
    ];

    let patch = generate_patch(&lines);

    assert!(patch.contains("new file mode 100644"));
    assert!(patch.contains("--- /dev/null"));
    assert!(patch.contains("+++ b/new_file.txt"));
    assert!(patch.contains("@@ -0,0 +1,3 @@"));
}

#[test]
fn test_deleted_file_uses_dev_null() {
    // A deleted file has only deletions (no context, no additions)
    let lines = vec![
        make_diff_line(LineSource::DeletedCommitted, "line 1", "deleted.txt"),
        make_diff_line(LineSource::DeletedCommitted, "line 2", "deleted.txt"),
    ];

    let patch = generate_patch(&lines);

    assert!(patch.contains("deleted file mode 100644"));
    assert!(patch.contains("--- a/deleted.txt"));
    assert!(patch.contains("+++ /dev/null"));
    assert!(patch.contains("@@ -1,2 +0,0 @@"));
}

#[test]
fn test_line_numbers_are_correct() {
    // Verify exact line numbers in the generated hunk header
    let lines = vec![
        make_diff_line(LineSource::Base, "line 1", "test.txt"),
        make_diff_line(LineSource::Base, "line 2", "test.txt"),
        make_diff_line(LineSource::Base, "line 3", "test.txt"),
        make_diff_line(LineSource::Committed, "inserted", "test.txt"),
        make_diff_line(LineSource::Base, "line 4", "test.txt"),
    ];

    let patch = generate_patch(&lines);

    // Hunk contains:
    // - Old file: 4 lines (line 1, 2, 3, 4 - context around insertion)
    // - New file: 5 lines (line 1, 2, 3, inserted, 4)
    assert!(
        patch.contains("@@ -1,4 +1,5 @@"),
        "Unexpected hunk header in:\n{}",
        patch
    );
}

#[test]
fn test_deletion_line_numbers() {
    let lines = vec![
        make_diff_line(LineSource::Base, "keep 1", "test.txt"),
        make_diff_line(LineSource::Base, "keep 2", "test.txt"),
        make_diff_line(LineSource::DeletedCommitted, "removed", "test.txt"),
        make_diff_line(LineSource::Base, "keep 3", "test.txt"),
        make_diff_line(LineSource::Base, "keep 4", "test.txt"),
    ];

    let patch = generate_patch(&lines);

    // Old file: 5 lines (4 kept + 1 deleted)
    // New file: 4 lines (the kept ones)
    assert!(
        patch.contains("@@ -1,5 +1,4 @@"),
        "Unexpected hunk header in:\n{}",
        patch
    );
}

#[test]
fn test_path_with_spaces() {
    // Git diff format doesn't escape spaces in paths
    let lines = vec![
        make_diff_line(LineSource::Base, "content", "path with spaces/file name.txt"),
        make_diff_line(LineSource::Committed, "new", "path with spaces/file name.txt"),
    ];

    let patch = generate_patch(&lines);

    assert!(patch.contains("diff --git a/path with spaces/file name.txt b/path with spaces/file name.txt"));
    assert!(patch.contains("--- a/path with spaces/file name.txt"));
    assert!(patch.contains("+++ b/path with spaces/file name.txt"));
}

#[test]
fn test_lines_without_file_path_are_skipped() {
    fn make_line_no_path(source: LineSource, content: &str) -> DiffLine {
        DiffLine {
            source,
            content: content.to_string(),
            prefix: ' ',
            line_number: None,
            file_path: None,
            inline_spans: Vec::new(),
            old_content: None,
            change_source: None,
            in_current_bookmark: None,
            block_idx: None,
            move_target: None,
        }
    }

    let lines = vec![
        make_line_no_path(LineSource::Base, "orphan line"),
        make_diff_line(LineSource::Base, "context", "test.txt"),
        make_diff_line(LineSource::Committed, "change", "test.txt"),
    ];

    let patch = generate_patch(&lines);

    // Orphan line should not appear in output
    assert!(!patch.contains("orphan"));
    // But the file with path should be processed
    assert!(patch.contains("+change"));
}

#[test]
fn test_lines_with_empty_file_path_are_skipped() {
    fn make_line_empty_path(source: LineSource, content: &str) -> DiffLine {
        DiffLine {
            source,
            content: content.to_string(),
            prefix: ' ',
            line_number: None,
            file_path: Some(String::new()),
            inline_spans: Vec::new(),
            old_content: None,
            change_source: None,
            in_current_bookmark: None,
            block_idx: None,
            move_target: None,
        }
    }

    let lines = vec![
        make_line_empty_path(LineSource::Committed, "orphan"),
        make_diff_line(LineSource::Committed, "real change", "test.txt"),
    ];

    let patch = generate_patch(&lines);

    assert!(!patch.contains("orphan"));
    assert!(patch.contains("+real change"));
}

#[test]
fn test_format_range_helper() {
    assert_eq!(format_range(1, 1), "1");
    assert_eq!(format_range(5, 1), "5");
    assert_eq!(format_range(1, 3), "1,3");
    assert_eq!(format_range(10, 0), "10,0");
    assert_eq!(format_range(0, 0), "0,0");
}
