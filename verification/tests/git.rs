//! What Git is asked, and what its answers mean.
use branchdiff::git::detect_base_branch;
use branchdiff::git::fetch_arg;
use branchdiff::git::fetch_base_branch;
use branchdiff::git::get_all_changed_files;
use branchdiff::git::get_current_branch;
use branchdiff::git::get_diff_files;
use branchdiff::git::get_file_at_ref;
use branchdiff::git::get_git_version;
use branchdiff::git::get_merge_base;
use branchdiff::git::get_merge_base_preferring_origin;
use branchdiff::git::get_repo_root;
use branchdiff::git::get_working_tree_file;
use branchdiff::git::has_merge_conflicts;
use branchdiff::git::is_binary_file;
use branchdiff::git::parse_diff_line;
use branchdiff::git::parse_git_version;
use branchdiff::git::ref_path;
use branchdiff::git::remote_ref;
use branchdiff::git::CommandOutput;
use branchdiff::git::ConflictCheck;
use branchdiff::git::ConflictStep;
use branchdiff::git::FetchPoll;
use branchdiff::git::FetchStep;
use branchdiff::git::FileRead;
use branchdiff::git::FileTransition;
use branchdiff::git::GitError;
use branchdiff::git::GitVersion;

fn answer(success: bool, stdout: &str, stderr: &str) -> CommandOutput {
    CommandOutput { success, stdout: stdout.to_string(), stderr: stderr.to_string() }
}

fn file_paths(merge_base: &str, committed: Option<Vec<String>>, status: Option<&str>) -> Vec<String> {
    get_all_changed_files(merge_base, committed, status).into_iter().map(|f| f.path).collect()
}

#[test]
fn test_version_errors_are_told() {
    let no_prefix = parse_git_version("2.34.1").unwrap_err();
    assert_eq!(no_prefix.message(), "Unexpected git version format: 2.34.1");
    let no_minor = parse_git_version("git version 2").unwrap_err();
    assert_eq!(no_minor.message(), "Cannot parse git version: git version 2");
    assert_eq!(parse_git_version("git version x.1").unwrap_err().message(), "Invalid major version");
    assert_eq!(parse_git_version("git version 2.-1").unwrap_err().message(), "Invalid minor version");
    assert_eq!(
        parse_git_version("git version 4294967296.1").unwrap_err().message(),
        "Invalid major version"
    );
    let version = parse_git_version("  git version   +2.7.rc1  ").unwrap();
    assert_eq!(version, GitVersion { major: 2, minor: 7, patch: 0 });
    let failed = get_git_version(&answer(false, "", " not found \n")).unwrap_err();
    assert_eq!(failed.message(), "git --version failed: not found");
}

/// The command is run by the program; what it answers is read here.
#[test]
fn test_get_git_version_succeeds() {
    let version = get_git_version(&answer(true, "git version 2.43.0\n", "")).unwrap();
    assert!(version.major >= 1);
}

#[test]
fn test_repo_root_and_merge_base() {
    assert_eq!(get_repo_root(&answer(true, "/home/me/repo\n", "")).unwrap(), "/home/me/repo");
    let none = get_repo_root(&answer(false, "", "fatal: not a git repository")).unwrap_err();
    assert_eq!(none.message(), "Not a git repository: fatal: not a git repository");
    assert_eq!(get_merge_base(&answer(true, "abc123\n", "")).unwrap(), "abc123");
    let lost = get_merge_base(&answer(false, "", "no such ref")).unwrap_err();
    assert_eq!(lost.message(), "Failed to find merge-base: no such ref");
    let preferred = get_merge_base_preferring_origin(Ok("a".to_string()), Ok("b".to_string()));
    assert_eq!(preferred.unwrap(), "a");
    let local = get_merge_base_preferring_origin(Err(GitError::NoBaseBranch), Ok("b".to_string()));
    assert_eq!(local.unwrap(), "b");
    assert_eq!(remote_ref("main"), "origin/main");
}

#[test]
fn test_base_branch_is_main_or_master() {
    assert_eq!(detect_base_branch(true, true).unwrap(), "main");
    assert_eq!(detect_base_branch(false, true).unwrap(), "master");
    assert_eq!(
        detect_base_branch(false, false).unwrap_err().message(),
        "Could not find 'main' or 'master' branch"
    );
}

#[test]
fn test_files_at_refs_and_in_the_working_tree() {
    assert_eq!(ref_path("", "src/lib.rs"), ":src/lib.rs");
    assert_eq!(ref_path("HEAD", "src/lib.rs"), "HEAD:src/lib.rs");
    assert_eq!(get_file_at_ref(answer(true, "text\n", "")), Some("text\n".to_string()));
    assert_eq!(get_file_at_ref(answer(false, "text\n", "")), None);
    let text = || FileRead::Text("text".to_string());
    assert_eq!(get_working_tree_file(true, text()), Ok(Some("text".to_string())));
    assert_eq!(get_working_tree_file(false, text()), Ok(None));
    assert_eq!(get_working_tree_file(true, FileRead::Missing), Ok(None));
    assert_eq!(
        get_working_tree_file(true, FileRead::Failed("denied".to_string())),
        Err("denied".to_string())
    );
    assert!(is_binary_file("-\t-\timage.png\n"));
    assert!(!is_binary_file("1\t2\ttext.rs\n"));
}

#[test]
fn test_current_branch_and_what_to_fetch() {
    assert_eq!(get_current_branch(&answer(true, "feature\n", "")), Some("feature".to_string()));
    assert_eq!(get_current_branch(&answer(true, "HEAD\n", "")), None);
    assert_eq!(get_current_branch(&answer(false, "feature\n", "")), None);
    assert_eq!(fetch_arg(Some("main"), "main"), "main");
    assert_eq!(fetch_arg(Some("feature"), "main"), "main:main");
    assert_eq!(fetch_arg(None, "main"), "main:main");
}

#[test]
fn test_fetching_ends_or_is_stopped() {
    let done = FetchPoll::Finished { success: true, stderr: String::new() };
    assert!(matches!(fetch_base_branch(done), FetchStep::Done));
    let failed = FetchPoll::Finished { success: false, stderr: "no remote".to_string() };
    match fetch_base_branch(failed) {
        FetchStep::Fail(error) => assert_eq!(error.message(), "git fetch failed: no remote"),
        other => panic!("{other:?}"),
    }
    let running = FetchPoll::Running { elapsed_nanos: 30_000_000_000 };
    assert!(matches!(fetch_base_branch(running), FetchStep::Wait(100)));
    match fetch_base_branch(FetchPoll::Running { elapsed_nanos: 30_000_000_001 }) {
        FetchStep::Kill(error) => assert_eq!(error.message(), "git fetch timed out"),
        other => panic!("{other:?}"),
    }
    match fetch_base_branch(FetchPoll::Failed("gone".to_string())) {
        FetchStep::Fail(error) => assert_eq!(error.message(), "Error waiting for git fetch: gone"),
        other => panic!("{other:?}"),
    }
}

#[test]
fn test_conflicts_are_looked_for_step_by_step() {
    let old = GitVersion { major: 2, minor: 37, patch: 99 };
    let none = ConflictStep::Known { conflicts: false };
    assert_eq!(has_merge_conflicts(&old, ConflictCheck::Start), none);
    let new = GitVersion { major: 2, minor: 38, patch: 0 };
    assert_eq!(has_merge_conflicts(&new, ConflictCheck::Start), ConflictStep::FindRemoteBranch);
    let missing = ConflictCheck::RemoteBranch { exists: false };
    assert_eq!(has_merge_conflicts(&new, missing), none);
    let found = ConflictCheck::RemoteBranch { exists: true };
    assert_eq!(has_merge_conflicts(&new, found), ConflictStep::TryMerge);
    let clean = ConflictCheck::MergeTree { success: true };
    assert_eq!(has_merge_conflicts(&new, clean), none);
    let conflicts = ConflictCheck::MergeTree { success: false };
    assert_eq!(has_merge_conflicts(&new, conflicts), ConflictStep::Known { conflicts: true });
}

#[test]
fn test_diff_files_are_read_line_by_line() {
    let text = "A\tnew.rs\r\nD\told.rs\nX\tother\nR090\ta.rs\tb.rs\nM\tlast.rs";
    let files = get_diff_files(&answer(true, text, "")).unwrap();
    assert_eq!(files, ["new.rs", "old.rs", "b.rs", "last.rs"]);
    let failed = get_diff_files(&answer(false, "", "bad revision")).unwrap_err();
    assert_eq!(failed.message(), "git diff failed: bad revision");
}

#[test]
fn test_all_changed_files_are_sorted_and_distinct() {
    let committed = || Some(vec!["src/b.rs".to_string(), "src/a.rs".to_string()]);
    let status = " M src/b.rs\n?? new_folder/file1.txt\nR  old.rs -> renamed.rs\nx\n";
    assert_eq!(
        file_paths("abc", committed(), Some(status)),
        ["new_folder/file1.txt", "renamed.rs", "src/a.rs", "src/b.rs"]
    );
    // Without a commit to compare with, only the status counts.
    assert_eq!(
        file_paths("", committed(), Some("?? new_file.txt\n")),
        ["new_file.txt"]
    );
    assert_eq!(file_paths("abc", committed(), None), ["src/a.rs", "src/b.rs"]);
    assert_eq!(file_paths("abc", None, Some("?? é.rs\n?? z.rs\n?? Z.rs\n")), ["Z.rs", "z.rs", "é.rs"]);
}

#[test]
fn test_parse_git_version_standard() {
    let version = parse_git_version("git version 2.34.1").unwrap();
    assert_eq!(version.major, 2);
    assert_eq!(version.minor, 34);
    assert_eq!(version.patch, 1);
}

#[test]
fn test_parse_git_version_apple() {
    let version = parse_git_version("git version 2.50.1 (Apple Git-155)").unwrap();
    assert_eq!(version.major, 2);
    assert_eq!(version.minor, 50);
    assert_eq!(version.patch, 1);
}

#[test]
fn test_parse_git_version_no_patch() {
    let version = parse_git_version("git version 2.38").unwrap();
    assert_eq!(version.major, 2);
    assert_eq!(version.minor, 38);
    assert_eq!(version.patch, 0);
}

#[test]
fn test_parse_git_version_windows() {
    // Windows Git for Windows format
    let version = parse_git_version("git version 2.39.2.windows.1").unwrap();
    assert_eq!(version.major, 2);
    assert_eq!(version.minor, 39);
    // patch parsing stops at non-numeric suffix
    assert_eq!(version.patch, 2);
}

#[test]
fn test_parse_git_version_ubuntu() {
    // Ubuntu/Debian format: "2.34.1" is the version part before any suffix
    // The split by '.' gives ["2", "34", "1", "ubuntu1"]
    // patch = "1" parses fine
    let version = parse_git_version("git version 2.34.1.ubuntu1").unwrap();
    assert_eq!(version.major, 2);
    assert_eq!(version.minor, 34);
    assert_eq!(version.patch, 1);
}

#[test]
fn test_parse_git_version_with_newline() {
    // Real output includes trailing newline
    let version = parse_git_version("git version 2.34.1\n").unwrap();
    assert_eq!(version.major, 2);
    assert_eq!(version.minor, 34);
    assert_eq!(version.patch, 1);
}

#[test]
fn test_parse_git_version_old_git() {
    let version = parse_git_version("git version 1.8.0").unwrap();
    assert_eq!(version.major, 1);
    assert_eq!(version.minor, 8);
    assert_eq!(version.patch, 0);
}

#[test]
fn test_parse_git_version_invalid_no_prefix() {
    let result = parse_git_version("2.34.1");
    assert!(result.is_err());
}

#[test]
fn test_parse_git_version_invalid_empty() {
    let result = parse_git_version("");
    assert!(result.is_err());
}

#[test]
fn test_parse_git_version_invalid_no_minor() {
    let result = parse_git_version("git version 2");
    assert!(result.is_err());
}

#[test]
fn test_git_version_at_least() {
    let v238 = GitVersion { major: 2, minor: 38, patch: 0 };
    assert!(v238.at_least(2, 38));
    assert!(v238.at_least(2, 37));
    assert!(v238.at_least(2, 25));
    assert!(!v238.at_least(2, 39));
    assert!(!v238.at_least(3, 0));

    // Test major version comparison
    let v3 = GitVersion { major: 3, minor: 0, patch: 0 };
    assert!(v3.at_least(2, 99));
    assert!(v3.at_least(3, 0));
    assert!(!v3.at_least(3, 1));
}

#[test]
fn test_git_version_display() {
    let version = GitVersion { major: 2, minor: 38, patch: 1 };
    assert_eq!(version.display(), "2.38.1");
}

#[test]
fn test_parse_diff_line_added() {
    let line = "A\tpath/to/new_file.rs";
    let result = parse_diff_line(line);
    assert_eq!(result, Some(FileTransition {
        from: None,
        to: Some("path/to/new_file.rs".to_string()),
    }));
}

#[test]
fn test_parse_diff_line_deleted() {
    let line = "D\tpath/to/deleted_file.rs";
    let result = parse_diff_line(line);
    assert_eq!(result, Some(FileTransition {
        from: Some("path/to/deleted_file.rs".to_string()),
        to: None,
    }));
}

#[test]
fn test_parse_diff_line_modified() {
    let line = "M\tpath/to/modified_file.rs";
    let result = parse_diff_line(line);
    assert_eq!(result, Some(FileTransition {
        from: Some("path/to/modified_file.rs".to_string()),
        to: Some("path/to/modified_file.rs".to_string()),
    }));
}

#[test]
fn test_parse_diff_line_renamed() {
    let line = "R100\told/path.rs\tnew/path.rs";
    let result = parse_diff_line(line);
    assert_eq!(result, Some(FileTransition {
        from: Some("old/path.rs".to_string()),
        to: Some("new/path.rs".to_string()),
    }));
}

#[test]
fn test_parse_diff_line_renamed_partial_similarity() {
    let line = "R075\told/path.rs\tnew/path.rs";
    let result = parse_diff_line(line);
    assert_eq!(result, Some(FileTransition {
        from: Some("old/path.rs".to_string()),
        to: Some("new/path.rs".to_string()),
    }));
}

#[test]
fn test_parse_diff_line_malformed_empty() {
    assert_eq!(parse_diff_line(""), None);
}

#[test]
fn test_parse_diff_line_malformed_single_part() {
    assert_eq!(parse_diff_line("M"), None);
}

#[test]
fn test_parse_diff_line_unrecognized_status() {
    // Unknown status should return None
    assert_eq!(parse_diff_line("X\tsome/file.rs"), None);
}

#[test]
fn test_file_transition_current_path_added() {
    let t = FileTransition {
        from: None,
        to: Some("new_file.rs".to_string()),
    };
    assert_eq!(t.current_path(), Some("new_file.rs"));
}

#[test]
fn test_file_transition_current_path_deleted() {
    let t = FileTransition {
        from: Some("deleted_file.rs".to_string()),
        to: None,
    };
    assert_eq!(t.current_path(), Some("deleted_file.rs"));
}

#[test]
fn test_file_transition_current_path_modified() {
    let t = FileTransition {
        from: Some("file.rs".to_string()),
        to: Some("file.rs".to_string()),
    };
    assert_eq!(t.current_path(), Some("file.rs"));
}

#[test]
fn test_file_transition_current_path_renamed() {
    let t = FileTransition {
        from: Some("old.rs".to_string()),
        to: Some("new.rs".to_string()),
    };
    // Should prefer destination (new path)
    assert_eq!(t.current_path(), Some("new.rs"));
}

/// Goes on until it is known whether there are conflicts.
fn conflicts(version: &GitVersion, exists: bool, success: bool) -> bool {
    let mut check = ConflictCheck::Start;
    loop {
        check = match has_merge_conflicts(version, check) {
            ConflictStep::FindRemoteBranch => ConflictCheck::RemoteBranch { exists },
            ConflictStep::TryMerge => ConflictCheck::MergeTree { success },
            ConflictStep::Known { conflicts } => return conflicts,
        };
    }
}

#[test]
fn test_has_merge_conflicts_no_remote() {
    let version = GitVersion { major: 2, minor: 43, patch: 0 };
    assert!(!conflicts(&version, false, false));
}

#[test]
fn test_has_merge_conflicts_clean() {
    let version = GitVersion { major: 2, minor: 43, patch: 0 };
    assert!(!conflicts(&version, true, true));
}

#[test]
fn test_has_merge_conflicts_with_conflict() {
    let version = GitVersion { major: 2, minor: 43, patch: 0 };
    assert!(conflicts(&version, true, false));
}

#[test]
fn test_has_merge_conflicts_skips_on_old_git() {
    // Simulate old git version
    let old_version = GitVersion { major: 2, minor: 30, patch: 0 };
    // Should return false (skip) on old git
    assert!(!conflicts(&old_version, true, false));
}

#[test]
fn test_has_merge_conflicts_version_boundary() {
    // Git 2.37.x should skip (returns false)
    let v237 = GitVersion { major: 2, minor: 37, patch: 99 };
    assert!(!conflicts(&v237, true, false), "Git 2.37 should skip conflict detection");

    // Git 2.38.0 should attempt detection
    let v238 = GitVersion { major: 2, minor: 38, patch: 0 };
    assert_eq!(has_merge_conflicts(&v238, ConflictCheck::Start), ConflictStep::FindRemoteBranch);
    assert!(!conflicts(&v238, false, false));
}

#[test]
fn test_get_all_changed_files_includes_files_in_new_directories() {
    let status = "?? new_folder/file1.txt\n?? new_folder/file2.txt\n";
    let changed = get_all_changed_files("abc123", Some(Vec::new()), Some(status));
    let paths: Vec<&str> = changed.iter().map(|f| f.path.as_str()).collect();

    assert!(paths.contains(&"new_folder/file1.txt"));
    assert!(paths.contains(&"new_folder/file2.txt"));
}

#[test]
fn test_get_all_changed_files_with_empty_merge_base() {
    // A repo with no commits yet has an empty merge_base
    let changed = get_all_changed_files("", None, Some("?? new_file.txt\n"));
    let paths: Vec<&str> = changed.iter().map(|f| f.path.as_str()).collect();
    assert!(paths.contains(&"new_file.txt"));
}

#[test]
fn test_fetch_base_branch_no_remote() {
    let stderr = "fatal: 'origin' does not appear to be a git repository".to_string();
    let step = fetch_base_branch(FetchPoll::Finished { success: false, stderr });
    assert!(matches!(step, FetchStep::Fail(GitError::FetchFailed(_))));
}
